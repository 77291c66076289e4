//! Vertices of the labeling graph: bit strings of bounded length.
//!
//! A node is the bit string that leads from the root to it. The string is
//! packed into the low bits of a word, bit `i` of the word being the `i`-th
//! step of the path. The mathematical model of a node is its `Seq<bool>`.

use vstd::prelude::*;
use crate::bits::{bit, bit_at, fits, low_mask, lemma_bits_equal, lemma_bits_fit, lemma_fits_bits};
use crate::node_vec::NodeVec;
use crate::text::string_push;

verus! {

/// The longest bit string that a node identifier can encode.
pub const MAX_LEN: usize = 56;

/// A vertex of the binary labeling graph.
#[derive(Clone, Copy, PartialEq, Eq, Structural, Hash, PartialOrd, Ord, Debug)]
pub struct Node {
    pub bv: u64,
    pub len: usize,
}

impl View for Node {
    type V = Seq<bool>;

    /// The bit string of the node, root-adjacent bit first.
    open spec fn view(&self) -> Seq<bool> {
        Seq::new(self.len as nat, |i: int| bit_at(self.bv, i))
    }
}

/// The word that holds the bits of `s` in its low positions.
pub open spec fn pack(s: Seq<bool>) -> u64
    decreases s.len(),
{
    if s.len() == 0 {
        0
    } else if s.last() && s.len() <= 64 {
        pack(s.drop_last()) | (1u64 << ((s.len() - 1) as u64))
    } else {
        pack(s.drop_last())
    }
}

/// The node whose bit string is `s`.
pub open spec fn node_of(s: Seq<bool>) -> Node {
    Node { bv: pack(s), len: s.len() as usize }
}

/// The 64-bit identifier of the node whose bit string is `s`.
pub open spec fn id_of(s: Seq<bool>) -> u64 {
    node_of(s).spec_uniqid()
}

/// The node that an identifier names: length in the high 8 bits, bits in the low 56.
pub open spec fn node_of_id(id: u64) -> Node {
    Node { bv: id & low_mask(56), len: (id >> 56) as usize }
}

/// An identifier is valid when it names a well-formed node.
pub open spec fn valid_id(id: u64) -> bool {
    node_of_id(id).wf()
}

/// The eight bytes of `x`, most significant first.
pub open spec fn be_bytes(x: u64) -> Seq<u8> {
    seq![
        ((x >> 56) & 0xff) as u8,
        ((x >> 48) & 0xff) as u8,
        ((x >> 40) & 0xff) as u8,
        ((x >> 32) & 0xff) as u8,
        ((x >> 24) & 0xff) as u8,
        ((x >> 16) & 0xff) as u8,
        ((x >> 8) & 0xff) as u8,
        (x & 0xff) as u8,
    ]
}

/// The word that eight bytes spell, most significant first.
pub open spec fn be_value(s: Seq<u8>) -> u64
    recommends
        s.len() == 8,
{
    (s[0] as u64) << 56 | (s[1] as u64) << 48 | (s[2] as u64) << 40 | (s[3] as u64) << 32 | (
    s[4] as u64) << 24 | (s[5] as u64) << 16 | (s[6] as u64) << 8 | (s[7] as u64)
}

/// What `Node::from_bytes` makes of a byte string.
pub open spec fn node_from_bytes(s: Seq<u8>) -> Option<Node> {
    if s.len() == 8 && valid_id(be_value(s)) {
        Some(node_of_id(be_value(s)))
    } else {
        None
    }
}

/// The parents that a leaf `v` has from its bits below position `k`: for each
/// set bit `i`, the prefix of length `i` extended by a zero bit.
pub open spec fn leaf_parents(v: Seq<bool>, k: nat) -> Seq<Seq<bool>>
    decreases k,
{
    if k == 0 {
        Seq::empty()
    } else if k <= v.len() && v[k - 1] {
        leaf_parents(v, (k - 1) as nat).push(v.take(k - 1).push(false))
    } else {
        leaf_parents(v, (k - 1) as nat)
    }
}

/// The parents of `v` in the graph of depth `n`, in the order in which a
/// label absorbs them. A node above the leaves has its two children; a leaf
/// has the left siblings of the nodes on its path, top down.
pub open spec fn parents(v: Seq<bool>, n: nat) -> Seq<Seq<bool>> {
    if v.len() == n {
        leaf_parents(v, n)
    } else {
        seq![v.push(false), v.push(true)]
    }
}

/// The number of set bits among the first `k` of `v`.
pub open spec fn ones(v: Seq<bool>, k: nat) -> nat
    decreases k,
{
    if k == 0 {
        0
    } else if k <= v.len() && v[k - 1] {
        ones(v, (k - 1) as nat) + 1
    } else {
        ones(v, (k - 1) as nat)
    }
}

/// A bit string as text: its bits as the digits `0` and `1`, root-adjacent
/// bit first, and the letter epsilon for the empty string.
pub open spec fn bit_text(v: Seq<bool>) -> Seq<char> {
    if v.len() == 0 {
        seq!['\u{3b5}']
    } else {
        Seq::new(v.len(), |i: int| if v[i] { '1' } else { '0' })
    }
}

/// The bits of a packed word are the bits of the string.
pub proof fn lemma_pack_bits(s: Seq<bool>)
    requires
        s.len() <= 64,
    ensures
        forall|i: int| #[trigger] bit_at(pack(s), i) == (0 <= i < s.len() && s[i]),
    decreases s.len(),
{
    if s.len() == 0 {
        assert forall|i: int| !#[trigger] bit_at(pack(s), i) by {
            if 0 <= i < 64 {
                let k = i as u64;
                assert(!bit(0u64, k)) by (bit_vector)
                    requires
                        k < 64,
                ;
            }
        }
    } else {
        let t = s.drop_last();
        lemma_pack_bits(t);
        let a = pack(t);
        let l = (s.len() - 1) as u64;
        assert forall|i: int| #[trigger] bit_at(pack(s), i) == (0 <= i < s.len() && s[i]) by {
            if 0 <= i < 64 {
                let k = i as u64;
                assert(bit_at(a, i) == (0 <= i < t.len() && t[i]));
                if s.last() {
                    assert(bit(a | (1u64 << l), k) == (bit(a, k) || k == l)) by (bit_vector)
                        requires
                            k < 64,
                            l < 64,
                    ;
                }
            }
        }
    }
}

/// A bit string of at most 56 bits is the view of its node, which is well formed.
pub proof fn lemma_node_of_view(s: Seq<bool>)
    requires
        s.len() <= MAX_LEN,
    ensures
        node_of(s).wf(),
        node_of(s)@ == s,
{
    lemma_pack_bits(s);
    lemma_bits_fit(pack(s), s.len() as int);
    assert(node_of(s)@ =~= s);
}

/// A well-formed node is the node of its bit string.
pub proof fn lemma_view_node_of(nd: Node)
    requires
        nd.wf(),
    ensures
        node_of(nd@) == nd,
        nd@.len() == nd.len,
{
    lemma_pack_bits(nd@);
    lemma_fits_bits(nd.bv, nd.len as int);
    lemma_bits_equal(pack(nd@), nd.bv);
}

/// The identifier of a well-formed node names that node again.
pub proof fn lemma_id_names_node(nd: Node)
    requires
        nd.wf(),
    ensures
        valid_id(nd.spec_uniqid()),
        node_of_id(nd.spec_uniqid()) == nd,
{
    let l = nd.len as u64;
    let bv = nd.bv;
    assert(((l << 56) | bv) >> 56 == l && ((l << 56) | bv) & low_mask(56) == bv) by (bit_vector)
        requires
            l <= 56,
            bv >> l == 0,
    ;
}

/// A valid identifier is the identifier of the node that it names.
pub proof fn lemma_node_names_id(id: u64)
    ensures
        node_of_id(id).spec_uniqid() == id,
        node_of_id(id).len < 256,
{
    assert((((id >> 56) << 56) | (id & low_mask(56))) == id && (id >> 56) < 256) by (bit_vector);
}

/// Distinct bit strings of at most 56 bits have distinct identifiers.
pub proof fn lemma_id_injective(s: Seq<bool>, t: Seq<bool>)
    requires
        s.len() <= MAX_LEN,
        t.len() <= MAX_LEN,
        id_of(s) == id_of(t),
    ensures
        s == t,
{
    lemma_node_of_view(s);
    lemma_node_of_view(t);
    lemma_id_names_node(node_of(s));
    lemma_id_names_node(node_of(t));
}

/// Reading back the eight bytes of a word gives the word.
pub proof fn lemma_be_roundtrip(x: u64)
    ensures
        be_bytes(x).len() == 8,
        be_value(be_bytes(x)) == x,
{
    let b0 = ((x >> 56) & 0xff) as u8;
    let b1 = ((x >> 48) & 0xff) as u8;
    let b2 = ((x >> 40) & 0xff) as u8;
    let b3 = ((x >> 32) & 0xff) as u8;
    let b4 = ((x >> 24) & 0xff) as u8;
    let b5 = ((x >> 16) & 0xff) as u8;
    let b6 = ((x >> 8) & 0xff) as u8;
    let b7 = (x & 0xff) as u8;
    assert((b0 as u64) << 56 | (b1 as u64) << 48 | (b2 as u64) << 40 | (b3 as u64) << 32 | (
    b4 as u64) << 24 | (b5 as u64) << 16 | (b6 as u64) << 8 | (b7 as u64) == x) by (bit_vector)
        requires
            b0 == ((x >> 56) & 0xff) as u8,
            b1 == ((x >> 48) & 0xff) as u8,
            b2 == ((x >> 40) & 0xff) as u8,
            b3 == ((x >> 32) & 0xff) as u8,
            b4 == ((x >> 24) & 0xff) as u8,
            b5 == ((x >> 16) & 0xff) as u8,
            b6 == ((x >> 8) & 0xff) as u8,
            b7 == (x & 0xff) as u8,
    ;
}

/// Spelling out the word that eight bytes spell gives the bytes.
pub proof fn lemma_be_bytes_of_value(s: Seq<u8>)
    requires
        s.len() == 8,
    ensures
        be_bytes(be_value(s)) == s,
{
    let b0 = s[0];
    let b1 = s[1];
    let b2 = s[2];
    let b3 = s[3];
    let b4 = s[4];
    let b5 = s[5];
    let b6 = s[6];
    let b7 = s[7];
    let x = be_value(s);
    assert(((x >> 56) & 0xff) as u8 == b0 && ((x >> 48) & 0xff) as u8 == b1 && ((x >> 40) & 0xff) as u8
        == b2 && ((x >> 32) & 0xff) as u8 == b3 && ((x >> 24) & 0xff) as u8 == b4 && ((x >> 16)
        & 0xff) as u8 == b5 && ((x >> 8) & 0xff) as u8 == b6 && (x & 0xff) as u8 == b7)
        by (bit_vector)
        requires
            x == (b0 as u64) << 56 | (b1 as u64) << 48 | (b2 as u64) << 40 | (b3 as u64) << 32 | (
            b4 as u64) << 24 | (b5 as u64) << 16 | (b6 as u64) << 8 | (b7 as u64),
    ;
    assert(be_bytes(x) =~= s);
}

impl Node {
    /// No bit is set at position `len` or above.
    pub open spec fn clean(self) -> bool {
        fits(self.bv, self.len as int)
    }

    /// A well-formed node has at most 56 bits and none set beyond its length.
    pub open spec fn wf(self) -> bool {
        self.len <= MAX_LEN && self.clean()
    }

    /// The identifier: the length in the high 8 bits, the bits in the low 56.
    pub open spec fn spec_uniqid(self) -> u64 {
        ((self.len as u64) << 56) | self.bv
    }

    /// The node cut down to its first `n` bits.
    pub open spec fn spec_take(self, n: usize) -> Node {
        Node { bv: self.bv & low_mask(n as u64), len: n }
    }

    /// The node with bit `b` set or cleared at position `len`, one bit longer.
    pub open spec fn spec_append(self, b: usize) -> Node {
        Node { bv: self.bv | ((b as u64) << (self.len as u64)), len: (self.len + 1) as usize }
    }

    /// The root: the empty bit string.
    pub fn new_zero() -> (r: Node)
        ensures
            r == (Node { bv: 0, len: 0 }),
            r.wf(),
            r@ == Seq::<bool>::empty(),
    {
        let r = Node { bv: 0, len: 0 };
        proof {
            assert(0u64 >> 0u64 == 0) by (bit_vector);
            assert(r@ =~= Seq::<bool>::empty());
        }
        r
    }

    /// The node with the given packed bits and length.
    pub fn new(bv: u64, len: usize) -> (r: Node)
        ensures
            r == (Node { bv, len }),
    {
        Node { bv, len }
    }

    /// The prefix of length `n`.
    pub fn take(self, n: usize) -> (r: Node)
        requires
            n <= self.len,
            n < 64,
        ensures
            r == self.spec_take(n),
            r.clean(),
            r@ == self@.take(n as int),
    {
        let m: u64 = n as u64;
        assert((1u64 << m) >= 1) by (bit_vector)
            requires
                m < 64,
        ;
        let mask: u64 = (1u64 << m) - 1;
        let r = Node { bv: self.bv & mask, len: n };
        proof {
            let x = self.bv;
            assert(mask == low_mask(m));
            assert((x & low_mask(m)) >> m == 0) by (bit_vector)
                requires
                    m < 64,
            ;
            assert forall|i: int| 0 <= i < n implies #[trigger] bit_at(r.bv, i) == bit_at(x, i) by {
                let k = i as u64;
                assert(bit(x & low_mask(m), k) == bit(x, k)) by (bit_vector)
                    requires
                        k < m,
                        m < 64,
                ;
            }
            assert(r@ =~= self@.take(n as int));
        }
        r
    }

    /// The bit string extended by one bit, `n` being 0 or 1.
    pub fn append(self, n: usize) -> (r: Node)
        requires
            n <= 1,
            self.len < 64,
        ensures
            r == self.spec_append(n),
            forall|i: int| #[trigger] bit_at(r.bv, i) == (bit_at(self.bv, i) || (i == self.len && n == 1)),
            self.clean() ==> r.clean() && r@ == self@.push(n == 1),
    {
        let l: u64 = self.len as u64;
        let b: u64 = n as u64;
        let r = Node { bv: self.bv | (b << l), len: self.len + 1 };
        proof {
            let x = self.bv;
            assert forall|i: int| #[trigger] bit_at(r.bv, i) == (bit_at(x, i) || (i == self.len && n == 1)) by {
                if 0 <= i < 64 {
                    let k = i as u64;
                    assert(bit(x | (b << l), k) == (bit(x, k) || (k == l && b == 1))) by (bit_vector)
                        requires
                            k < 64,
                            l < 64,
                            b <= 1,
                    ;
                }
            }
            if self.clean() {
                lemma_fits_bits(x, self.len as int);
                lemma_bits_fit(r.bv, r.len as int);
                assert(r@ =~= self@.push(n == 1));
            }
        }
        r
    }

    /// Bit `n` of the node, as 0 or 1.
    pub fn get_bit(self, n: usize) -> (r: u64)
        requires
            n < 64,
        ensures
            r == if bit_at(self.bv, n as int) { 1u64 } else { 0u64 },
            n < self.len ==> (r == 1) == self@[n as int],
    {
        let k: u64 = n as u64;
        let x = self.bv;
        assert((x >> k) & 1 == 0 || (x >> k) & 1 == 1) by (bit_vector);
        (self.bv >> k) & 1
    }

    /// The parents of the node in the graph of depth `n`.
    pub fn get_parents(self, n: usize) -> (r: NodeVec)
        requires
            self.wf(),
            self.len <= n <= MAX_LEN,
        ensures
            r@.len() == parents(self@, n as nat).len(),
            forall|i: int|
                0 <= i < r@.len() ==> (#[trigger] r@[i]).wf() && r@[i]@ == parents(self@, n as nat)[i],
    {
        let mut out = NodeVec::new();
        if self.len == n {
            let mut index: usize = 0;
            while index < n
                invariant
                    self.wf(),
                    self.len == n,
                    n <= MAX_LEN,
                    index <= n,
                    out@.len() == leaf_parents(self@, index as nat).len(),
                    forall|i: int|
                        0 <= i < out@.len() ==> (#[trigger] out@[i]).wf() && out@[i]@ == leaf_parents(
                            self@,
                            index as nat,
                        )[i],
                decreases n - index,
            {
                if self.get_bit(index) == 1 {
                    out.push(self.take(index).append(0));
                }
                index += 1;
            }
        } else {
            out.push(self.append(0));
            out.push(self.append(1));
        }
        out
    }

    /// The node as text: its bits as digits, or the letter epsilon for the
    /// root.
    pub fn to_string(&self) -> (text: String)
        requires
            self.len <= 64,
        ensures
            text@ == bit_text(self@),
    {
        let mut text = String::new();
        if self.len == 0 {
            string_push(&mut text, '\u{3b5}');
            assert(text@ =~= bit_text(self@));
            return text;
        }
        let mut i: usize = 0;
        while i < self.len
            invariant
                i <= self.len <= 64,
                text@ == Seq::new(i as nat, |k: int| if self@[k] { '1' } else { '0' }),
            decreases self.len - i,
        {
            let c = if self.get_bit(i) == 1 { '1' } else { '0' };
            string_push(&mut text, c);
            assert(text@ =~= Seq::new((i + 1) as nat, |k: int| if self@[k] { '1' } else { '0' }));
            i += 1;
        }
        text
    }

    /// The 64-bit identifier of the node.
    pub fn uniqid(self) -> (r: u64)
        ensures
            r == self.spec_uniqid(),
            self.wf() ==> r == id_of(self@),
    {
        proof {
            if self.wf() {
                lemma_view_node_of(self);
            }
        }
        ((self.len as u64) << 56) | self.bv
    }

    /// The identifier as eight bytes, most significant first.
    pub fn to_bytes(self) -> (r: [u8; 8])
        ensures
            r@ == be_bytes(self.spec_uniqid()),
    {
        u64_to_be(self.uniqid())
    }

    /// Reads a node from the eight bytes of its identifier. Anything that is
    /// not eight bytes long, or that names more than 56 bits or a bit beyond
    /// the length that it gives, is no node.
    pub fn from_bytes(bts: &[u8]) -> (r: Option<Node>)
        ensures
            r == node_from_bytes(bts@),
            r is Some ==> r->0.wf() && be_bytes(r->0.spec_uniqid()) == bts@,
    {
        if bts.len() != 8 {
            return None;
        }
        let r = Node::from_id(u64_from_be(bts));
        proof {
            lemma_node_names_id(be_value(bts@));
            lemma_be_bytes_of_value(bts@);
        }
        r
    }

    /// The node that an identifier names, if it names one.
    pub fn from_id(id: u64) -> (r: Option<Node>)
        ensures
            r == if valid_id(id) {
                Some(node_of_id(id))
            } else {
                None
            },
    {
        let len64: u64 = id >> 56;
        let num: u64 = (id << 8) >> 8;
        assert(num == id & low_mask(56) && len64 < 256) by (bit_vector)
            requires
                num == (id << 8) >> 8,
                len64 == id >> 56,
        ;
        if len64 > 56 {
            return None;
        }
        if num >> len64 != 0 {
            return None;
        }
        Some(Node { bv: num, len: len64 as usize })
    }
}

/// The eight bytes of a word, most significant first.
pub fn u64_to_be(x: u64) -> (r: [u8; 8])
    ensures
        r@ == be_bytes(x),
{
    let r = [
        ((x >> 56) & 0xff) as u8,
        ((x >> 48) & 0xff) as u8,
        ((x >> 40) & 0xff) as u8,
        ((x >> 32) & 0xff) as u8,
        ((x >> 24) & 0xff) as u8,
        ((x >> 16) & 0xff) as u8,
        ((x >> 8) & 0xff) as u8,
        (x & 0xff) as u8,
    ];
    assert(r@ =~= be_bytes(x));
    r
}

/// The word that eight bytes spell, most significant first.
pub fn u64_from_be(bts: &[u8]) -> (x: u64)
    requires
        bts@.len() == 8,
    ensures
        x == be_value(bts@),
{
    (bts[0] as u64) << 56 | (bts[1] as u64) << 48 | (bts[2] as u64) << 40 | (bts[3] as u64) << 32 | (
    bts[4] as u64) << 24 | (bts[5] as u64) << 16 | (bts[6] as u64) << 8 | (bts[7] as u64)
}

/// A node above the leaves has exactly its two children as parents, and a
/// leaf has one parent for each set bit.
pub proof fn lemma_parent_count(v: Seq<bool>, n: nat)
    requires
        v.len() <= n,
    ensures
        v.len() < n ==> parents(v, n) == seq![v.push(false), v.push(true)],
        v.len() == n ==> parents(v, n).len() == ones(v, n),
{
    if v.len() == n {
        lemma_leaf_parent_count(v, n);
    }
}

/// The parents from the bits below `k` are as many as the set bits below `k`.
pub proof fn lemma_leaf_parent_count(v: Seq<bool>, k: nat)
    ensures
        leaf_parents(v, k).len() == ones(v, k),
    decreases k,
{
    if k > 0 {
        lemma_leaf_parent_count(v, (k - 1) as nat);
    }
}

/// Decoding the encoding of a well-formed node gives the node back.
pub proof fn lemma_node_codec_roundtrip(nd: Node)
    requires
        nd.wf(),
    ensures
        node_from_bytes(be_bytes(nd.spec_uniqid())) == Some(nd),
{
    lemma_be_roundtrip(nd.spec_uniqid());
    lemma_id_names_node(nd);
}

} // verus!
