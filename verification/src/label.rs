//! Labels: the 32-byte digests bound to the nodes of the graph.
//!
//! A label lives in a `smallvec::SmallVec` with 32 bytes of inline storage,
//! so that the labeler moves labels around without touching the heap.

use vstd::prelude::*;
use smallvec::SmallVec;

verus! {

/// The length of a label in bytes.
pub const LABEL_SIZE: usize = 32;

/// A byte string kept in a `SmallVec<[u8; 32]>`.
#[verifier::external_body]
#[derive(Debug)]
pub struct Label {
    bytes: SmallVec<[u8; 32]>,
}

/// The bytes that the small vector of a label holds, in order.
pub uninterp spec fn label_bytes(l: Label) -> Seq<u8>;

impl View for Label {
    type V = Seq<u8>;

    open spec fn view(&self) -> Seq<u8> {
        label_bytes(*self)
    }
}

/// `SmallVec::from_slice`: the new vector holds a copy of the slice.
#[verifier::external_body]
pub(crate) fn label_from_slice(s: &[u8]) -> (l: Label)
    ensures
        label_bytes(l) == s@,
{
    Label { bytes: SmallVec::from_slice(s) }
}

/// `SmallVec::as_slice`: the slice shows the contents of the vector.
#[verifier::external_body]
pub(crate) fn label_as_slice(l: &Label) -> (s: &[u8])
    ensures
        s@ == label_bytes(*l),
{
    l.bytes.as_slice()
}

impl Label {
    /// A label that holds a copy of `s`.
    pub fn from_slice(s: &[u8]) -> (l: Label)
        ensures
            l@ == s@,
    {
        label_from_slice(s)
    }

    /// An empty label, the stand-in for one that is yet to be computed.
    pub fn empty() -> (l: Label)
        ensures
            l@ == Seq::<u8>::empty(),
    {
        let none: [u8; 0] = [];
        let l = label_from_slice(none.as_slice());
        assert(l@ =~= Seq::<u8>::empty());
        l
    }

    /// The bytes of the label.
    pub fn as_slice(&self) -> (s: &[u8])
        ensures
            s@ == self@,
    {
        label_as_slice(self)
    }

    /// The number of bytes in the label.
    pub fn len(&self) -> (n: usize)
        ensures
            n == self@.len(),
    {
        label_as_slice(self).len()
    }

    /// Whether two labels hold the same bytes.
    pub fn same(&self, other: &Label) -> (b: bool)
        ensures
            b == (self@ == other@),
    {
        bytes_equal(label_as_slice(self), label_as_slice(other))
    }
}

impl Clone for Label {
    fn clone(&self) -> (c: Label)
        ensures
            c@ == self@,
    {
        label_from_slice(label_as_slice(self))
    }
}

/// Whether two byte strings are equal.
pub fn bytes_equal(a: &[u8], b: &[u8]) -> (r: bool)
    ensures
        r == (a@ == b@),
{
    if a.len() != b.len() {
        return false;
    }
    let mut i: usize = 0;
    while i < a.len()
        invariant
            a.len() == b.len(),
            i <= a.len(),
            a@.take(i as int) == b@.take(i as int),
        decreases a.len() - i,
    {
        if a[i] != b[i] {
            return false;
        }
        assert(a@.take(i + 1) =~= a@.take(i as int).push(a@[i as int]));
        assert(b@.take(i + 1) =~= b@.take(i as int).push(b@[i as int]));
        i += 1;
    }
    assert(a@ =~= a@.take(i as int));
    assert(b@ =~= b@.take(i as int));
    true
}

} // verus!
