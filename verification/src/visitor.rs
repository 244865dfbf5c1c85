//! A visitor held by reference, so that it can be handed on until one visit takes it.
use vstd::prelude::*;
use crate::error::{Error, ErrorKind, SpecErrorKind};

verus! {

/// A wrapper that holds a visitor until a visit takes it.
#[derive(Debug)]
pub struct RefVisitor<V> {
    inner: Option<V>,
}

impl<V> RefVisitor<V> {
    /// The visitor still held, if no visit took it.
    pub closed spec fn held(&self) -> Option<V> {
        self.inner
    }

    /// Creates a new reference-taking visitor from the given visitor.
    pub fn new(visitor: V) -> (r: Self)
        ensures
            r.held() == Some(visitor),
    {
        RefVisitor { inner: Some(visitor) }
    }

    /// Returns the underlying visitor, or `None` if a visit already took it.
    pub fn into_inner(self) -> (r: Option<V>)
        ensures
            r == self.held(),
    {
        self.inner
    }

    /// Whether a visit has already occurred.
    pub fn visited(&self) -> (r: bool)
        ensures
            r == (self.held() is None),
    {
        self.inner.is_none()
    }

    /// Takes the visitor for a visit; an error once a visit already took it.
    pub fn take(&mut self) -> (r: Result<V, Error>)
        ensures
            final(self).held() is None,
            match old(self).held() {
                Some(v) => r == Ok::<V, Error>(v),
                None => r matches Err(e) && e.line == 0 && e.col == 0 && e.kind@ == SpecErrorKind::Msg("already visited"),
            },
    {
        match self.inner.take() {
            Some(v) => Ok(v),
            None => Err(Error::new(ErrorKind::Msg("already visited"))),
        }
    }
}

} // verus!
