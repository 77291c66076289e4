//! Keyed hashing and the accumulator that frames what it hashes.

use vstd::prelude::*;
use vstd::bytes::{
    lemma_auto_spec_u64_to_from_le_bytes, spec_u64_from_le_bytes, spec_u64_to_le_bytes, u64_to_le_bytes,
};
use crate::label::{Label, LABEL_SIZE};

verus! {

/// The digest that `tmelcrypt::hash_keyed` gives for a key and a message.
pub uninterp spec fn keyed_digest(key: Seq<u8>, data: Seq<u8>) -> [u8; 32];

/// The bytes of the keyed digest of `data` under `key`.
pub open spec fn digest(key: Seq<u8>, data: Seq<u8>) -> Seq<u8> {
    keyed_digest(key, data)@
}

/// `tmelcrypt::hash_keyed`: the BLAKE3 keyed hash of `bts` under the BLAKE3
/// hash of `key`. The digest is a function of the key and the message.
#[verifier::external_body]
pub(crate) fn hash_keyed(key: &[u8], bts: &[u8]) -> (r: [u8; 32])
    ensures
        r == keyed_digest(key@, bts@),
{
    tmelcrypt::hash_keyed(key, bts).0
}

/// The keyed hash of `bts` under `key`, as a label.
pub fn bts_key(bts: &[u8], key: &[u8]) -> (r: Label)
    ensures
        r@ == digest(key@, bts@),
        r@.len() == LABEL_SIZE,
{
    let d = hash_keyed(key, bts);
    Label::from_slice(d.as_slice())
}

/// A chunk as the accumulator absorbs it: its length as eight little-endian
/// bytes, then the chunk.
pub open spec fn frame(chunk: Seq<u8>) -> Seq<u8> {
    spec_u64_to_le_bytes(chunk.len() as u64) + chunk
}

/// A keyed hash over a sequence of chunks, each framed by its length.
pub struct Accumulator {
    key: Vec<u8>,
    buf: Vec<u8>,
}

impl Accumulator {
    /// The key that the accumulator was made with.
    pub closed spec fn key(&self) -> Seq<u8> {
        self.key@
    }

    /// The framed chunks absorbed so far.
    pub closed spec fn absorbed(&self) -> Seq<u8> {
        self.buf@
    }

    /// An accumulator under `key` that has absorbed nothing.
    pub fn new(key: &[u8]) -> (a: Accumulator)
        ensures
            a.key() == key@,
            a.absorbed() == Seq::<u8>::empty(),
    {
        let mut k: Vec<u8> = Vec::new();
        append_bytes(&mut k, key);
        Accumulator { key: k, buf: Vec::new() }
    }

    /// Absorbs one chunk, framed by its length, and hands the accumulator
    /// back for the next chunk.
    pub fn add(&mut self, bts: &[u8]) -> (next: &mut Accumulator)
        ensures
            next.key() == old(self).key(),
            next.absorbed() == old(self).absorbed() + frame(bts@),
            *final(self) == *final(next),
    {
        let prefix = u64_to_le_bytes(bts.len() as u64);
        append_bytes(&mut self.buf, prefix.as_slice());
        append_bytes(&mut self.buf, bts);
        assert(self.buf@ =~= old(self).buf@ + frame(bts@));
        self
    }

    /// The digest of what was absorbed, under the key. The accumulator is
    /// left as it was, so the call can be repeated with the same result.
    pub fn hash(&self) -> (l: Label)
        ensures
            l@ == digest(self.key(), self.absorbed()),
            l@.len() == LABEL_SIZE,
    {
        bts_key(self.buf.as_slice(), self.key.as_slice())
    }
}

/// Appends the bytes of `s` to `v`.
pub fn append_bytes(v: &mut Vec<u8>, s: &[u8])
    ensures
        final(v)@ == old(v)@ + s@,
{
    let mut i: usize = 0;
    while i < s.len()
        invariant
            i <= s.len(),
            v@ == old(v)@ + s@.take(i as int),
        decreases s.len() - i,
    {
        v.push(s[i]);
        assert(s@.take(i + 1) =~= s@.take(i as int).push(s@[i as int]));
        i += 1;
    }
    assert(s@.take(i as int) =~= s@);
}

/// What an accumulator has absorbed after the given chunks, in order.
pub open spec fn framed(chunks: Seq<Seq<u8>>) -> Seq<u8>
    decreases chunks.len(),
{
    if chunks.len() == 0 {
        Seq::empty()
    } else {
        framed(chunks.drop_last()) + frame(chunks.last())
    }
}

/// What was absorbed starts with the frame of the first chunk.
pub proof fn lemma_framed_front(chunks: Seq<Seq<u8>>)
    requires
        chunks.len() > 0,
    ensures
        framed(chunks) == frame(chunks.first()) + framed(chunks.drop_first()),
    decreases chunks.len(),
{
    if chunks.len() == 1 {
        assert(chunks.drop_last() =~= Seq::<Seq<u8>>::empty());
        assert(chunks.drop_first() =~= Seq::<Seq<u8>>::empty());
        assert(framed(chunks) =~= frame(chunks.first()) + framed(chunks.drop_first()));
    } else {
        let init = chunks.drop_last();
        lemma_framed_front(init);
        assert(init.drop_first() =~= chunks.drop_first().drop_last());
        assert(chunks.drop_first().last() == chunks.last());
        assert(framed(chunks) =~= frame(chunks.first()) + framed(chunks.drop_first()));
    }
}

/// Framing keeps the chunks apart: two sequences of chunks that leave an
/// accumulator with the same bytes are the same sequence, chunk for chunk.
pub proof fn lemma_framing_tells_chunks_apart(a: Seq<Seq<u8>>, b: Seq<Seq<u8>>)
    requires
        forall|i: int| 0 <= i < a.len() ==> (#[trigger] a[i]).len() <= u64::MAX,
        forall|i: int| 0 <= i < b.len() ==> (#[trigger] b[i]).len() <= u64::MAX,
        framed(a) == framed(b),
    ensures
        a == b,
    decreases a.len(),
{
    lemma_auto_spec_u64_to_from_le_bytes();
    if a.len() == 0 {
        if b.len() > 0 {
            lemma_framed_front(b);
            assert(framed(b).len() >= 8);
        }
        assert(a =~= b);
    } else {
        lemma_framed_front(a);
        if b.len() == 0 {
            assert(framed(a).len() >= 8);
        } else {
            lemma_framed_front(b);
            let x = a.first();
            let y = b.first();
            let fa = framed(a);
            let fb = framed(b);
            assert(fa.subrange(0, 8) =~= spec_u64_to_le_bytes(x.len() as u64));
            assert(fb.subrange(0, 8) =~= spec_u64_to_le_bytes(y.len() as u64));
            assert(spec_u64_from_le_bytes(spec_u64_to_le_bytes(x.len() as u64)) == x.len() as u64);
            assert(spec_u64_from_le_bytes(spec_u64_to_le_bytes(y.len() as u64)) == y.len() as u64);
            assert(x.len() == y.len());
            assert(fa.subrange(8, 8 + x.len() as int) =~= x);
            assert(fb.subrange(8, 8 + y.len() as int) =~= y);
            assert(x == y);
            assert(framed(a.drop_first()) =~= fa.subrange(8 + x.len() as int, fa.len() as int));
            assert(framed(b.drop_first()) =~= fb.subrange(8 + y.len() as int, fb.len() as int));
            lemma_framing_tells_chunks_apart(a.drop_first(), b.drop_first());
            assert(a =~= seq![x] + a.drop_first());
            assert(b =~= seq![y] + b.drop_first());
        }
    }
}

} // verus!
