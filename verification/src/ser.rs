//! Serializers that refuse or skip every element, for element types a format does not write.
use vstd::prelude::*;
use crate::error::{Error, ErrorKind, SpecErrorKind};

verus! {

/// A serializer that supports no element type: every element is an error.
#[derive(Debug)]
pub struct Impossible;

impl Impossible {
    /// Comments are refused.
    pub fn serialize_comment(&mut self, value: &[u8]) -> (r: Result<(), Error>)
        ensures
            r matches Err(e) && e.line == 0 && e.col == 0 && e.kind@ == SpecErrorKind::Unsupported("comment"),
    {
        Err(Error::new(ErrorKind::Unsupported("comment")))
    }

    /// Classes are refused.
    pub fn serialize_class(&mut self, src: &[u8], dst: &[Vec<u8>]) -> (r: Result<Impossible, Error>)
        ensures
            r matches Err(e) && e.line == 0 && e.col == 0 && e.kind@ == SpecErrorKind::Unsupported("class"),
    {
        Err(Error::new(ErrorKind::Unsupported("class")))
    }

    /// Fields are refused.
    pub fn serialize_field(&mut self, src: &[u8], desc: Option<&[u8]>, dst: &[Vec<u8>], dst_desc: Option<&[Vec<u8>]>) -> (r: Result<Impossible, Error>)
        ensures
            r matches Err(e) && e.line == 0 && e.col == 0 && e.kind@ == SpecErrorKind::Unsupported("field"),
    {
        Err(Error::new(ErrorKind::Unsupported("field")))
    }

    /// Methods are refused.
    pub fn serialize_method(&mut self, src: &[u8], desc: Option<&[u8]>, dst: &[Vec<u8>], dst_desc: Option<&[Vec<u8>]>) -> (r: Result<Impossible, Error>)
        ensures
            r matches Err(e) && e.line == 0 && e.col == 0 && e.kind@ == SpecErrorKind::Unsupported("method"),
    {
        Err(Error::new(ErrorKind::Unsupported("method")))
    }

    /// Method arguments are refused.
    pub fn serialize_method_arg(&mut self, src: Option<&[u8]>, dst: Option<&[Vec<u8>]>, pos: Option<usize>, lv_index: Option<usize>) -> (r: Result<Impossible, Error>)
        ensures
            r matches Err(e) && e.line == 0 && e.col == 0 && e.kind@ == SpecErrorKind::Unsupported("method argument"),
    {
        Err(Error::new(ErrorKind::Unsupported("method argument")))
    }

    /// Method variables are refused.
    pub fn serialize_method_var(
        &mut self,
        src: Option<&[u8]>,
        dst: Option<&[Vec<u8>]>,
        lv_index: Option<usize>,
        lvt_row_index: Option<usize>,
        op_idx: Option<(usize, Option<usize>)>,
    ) -> (r: Result<Impossible, Error>)
        ensures
            r matches Err(e) && e.line == 0 && e.col == 0 && e.kind@ == SpecErrorKind::Unsupported("method variable"),
    {
        Err(Error::new(ErrorKind::Unsupported("method variable")))
    }
}

/// A serializer that skips every element: nothing is written and nothing fails.
#[derive(Debug)]
pub struct Skip;

impl Skip {
    /// Creates a new skip helper.
    pub fn new() -> (r: Skip)
        ensures
            r == Skip,
    {
        Skip
    }

    /// Comments are skipped.
    pub fn serialize_comment(&mut self, value: &[u8]) -> (r: Result<(), Error>)
        ensures
            r is Ok,
    {
        Ok(())
    }

    /// Classes are skipped, with their content.
    pub fn serialize_class(&mut self, src: &[u8], dst: &[Vec<u8>]) -> (r: Result<Skip, Error>)
        ensures
            r is Ok,
    {
        Ok(Skip::new())
    }

    /// Fields are skipped, with their content.
    pub fn serialize_field(&mut self, src: &[u8], desc: Option<&[u8]>, dst: &[Vec<u8>], dst_desc: Option<&[Vec<u8>]>) -> (r: Result<Skip, Error>)
        ensures
            r is Ok,
    {
        Ok(Skip::new())
    }

    /// Methods are skipped, with their content.
    pub fn serialize_method(&mut self, src: &[u8], desc: Option<&[u8]>, dst: &[Vec<u8>], dst_desc: Option<&[Vec<u8>]>) -> (r: Result<Skip, Error>)
        ensures
            r is Ok,
    {
        Ok(Skip::new())
    }

    /// Method arguments are skipped, with their content.
    pub fn serialize_method_arg(&mut self, src: Option<&[u8]>, dst: Option<&[Vec<u8>]>, pos: Option<usize>, lv_index: Option<usize>) -> (r: Result<Skip, Error>)
        ensures
            r is Ok,
    {
        Ok(Skip::new())
    }

    /// Method variables are skipped, with their content.
    pub fn serialize_method_var(
        &mut self,
        src: Option<&[u8]>,
        dst: Option<&[Vec<u8>]>,
        lv_index: Option<usize>,
        lvt_row_index: Option<usize>,
        op_idx: Option<(usize, Option<usize>)>,
    ) -> (r: Result<Skip, Error>)
        ensures
            r is Ok,
    {
        Ok(Skip::new())
    }
}

} // verus!
