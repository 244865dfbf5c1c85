//! Lists of destination names, held inline for the common case of a few namespaces.
use vstd::prelude::*;
use smallvec::SmallVec;
use crate::element::names_view;

verus! {

/// A list of names in a `SmallVec` that keeps two of them inline.
#[verifier::external_body]
#[derive(Debug)]
pub struct NameList {
    inner: SmallVec<[Vec<u8>; 2]>,
}

/// The names a list holds, in order.
pub uninterp spec fn names_of(v: NameList) -> Seq<Seq<u8>>;

/// An empty list, made by `SmallVec::new`.
#[verifier::external_body]
pub(crate) fn names_new() -> (r: NameList)
    ensures
        names_of(r) == Seq::<Seq<u8>>::empty(),
{
    NameList { inner: SmallVec::new() }
}

/// Appends a name with `SmallVec::push`, which adds it at the end.
#[verifier::external_body]
pub(crate) fn names_push(v: &mut NameList, name: Vec<u8>)
    requires
        names_of(*old(v)).len() < usize::MAX,
    ensures
        names_of(*final(v)) == names_of(*old(v)).push(name@),
{
    v.inner.push(name)
}

/// The names as a slice, in order, with `SmallVec::as_slice`.
#[verifier::external_body]
pub(crate) fn names_as_slice(v: &NameList) -> (r: &[Vec<u8>])
    ensures
        names_view(r@) == names_of(*v),
{
    v.inner.as_slice()
}

/// The names moved into a `Vec`, in order, with `SmallVec::into_vec`.
#[verifier::external_body]
pub(crate) fn names_into_vec(v: NameList) -> (r: Vec<Vec<u8>>)
    ensures
        names_view(r@) == names_of(v),
{
    v.inner.into_vec()
}

} // verus!
