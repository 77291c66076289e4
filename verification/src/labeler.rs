//! The labels of the graph and the depth-first labeler that computes them.
//!
//! The label of a node is the keyed hash, under the key of the puzzle, of
//! the node's identifier and the labels of its parents. A node above the
//! leaves has its two children as parents; a leaf has the left siblings of
//! the nodes on its path. Every label thus depends only on labels that a
//! depth-first walk of the tree, left before right and children before
//! their parent, has already met.

use vstd::prelude::*;
use vstd::arithmetic::power2::{pow2, lemma_pow2_pos, lemma_pow2_unfold};
use crate::hash::{frame, digest, Accumulator};
use crate::label::Label;
use crate::node::{be_bytes, id_of, leaf_parents, parents, lemma_view_node_of, Node, MAX_LEN};
use crate::table::LabelMap;

verus! {

/// The position at which a depth-first walk of the tree of depth `n` is
/// done with the subtree of `v`: the index of the last leaf below `v`.
pub open spec fn rank(v: Seq<bool>, n: nat) -> int
    decreases v.len(),
{
    if v.len() == 0 {
        pow2(n) - 1
    } else if v.last() || v.len() > n {
        rank(v.drop_last(), n)
    } else {
        rank(v.drop_last(), n) - pow2((n - v.len()) as nat)
    }
}

/// The subtree of a node of the tree holds at least one leaf.
pub proof fn lemma_rank_bound(v: Seq<bool>, n: nat)
    requires
        v.len() <= n,
    ensures
        rank(v, n) >= pow2((n - v.len()) as nat) - 1,
        rank(v, n) >= 0,
    decreases v.len(),
{
    lemma_pow2_pos((n - v.len()) as nat);
    if v.len() > 0 {
        lemma_rank_bound(v.drop_last(), n);
        lemma_pow2_unfold((n - v.len() + 1) as nat);
    }
}

/// A node is done no earlier than its prefixes allow: the walk of the
/// subtree of a prefix ends at most one subtree's width after it.
pub proof fn lemma_rank_prefix(v: Seq<bool>, n: nat, j: nat)
    requires
        j <= v.len() <= n,
    ensures
        rank(v, n) >= rank(v.take(j as int), n) - pow2((n - j) as nat) + pow2((n - v.len()) as nat),
    decreases v.len() - j,
{
    if j == v.len() {
        assert(v.take(j as int) =~= v);
    } else {
        let t = v.drop_last();
        lemma_rank_prefix(t, n, j);
        assert(t.take(j as int) =~= v.take(j as int));
        lemma_pow2_unfold((n - t.len()) as nat);
    }
}

/// The left sibling of a node on the path to `v` is done before `v`.
pub proof fn lemma_rank_left_sibling(v: Seq<bool>, n: nat, i: int)
    requires
        v.len() <= n,
        0 <= i < v.len(),
        v[i],
    ensures
        0 <= rank(v.take(i).push(false), n) < rank(v, n),
{
    let u = v.take(i);
    let w = u.push(false);
    let x = v.take(i + 1);
    assert(w.drop_last() =~= u);
    assert(x.drop_last() =~= u);
    assert(x.last());
    lemma_rank_bound(w, n);
    lemma_rank_prefix(v, n, (i + 1) as nat);
    lemma_pow2_pos((n - v.len()) as nat);
}

/// Every parent of a leaf is the left sibling of a node on its path.
pub proof fn lemma_leaf_parent_shape(v: Seq<bool>, k: nat, j: int)
    requires
        0 <= j < leaf_parents(v, k).len(),
    ensures
        is_left_sibling(leaf_parents(v, k)[j], v),
        leaf_parents(v, k)[j].len() <= k,
    decreases k,
{
    if k > 0 {
        let rest = leaf_parents(v, (k - 1) as nat);
        if k <= v.len() && v[k - 1] {
            if j < rest.len() {
                lemma_leaf_parent_shape(v, (k - 1) as nat, j);
            } else {
                let p = v.take(k - 1).push(false);
                assert(p.drop_last() =~= v.take(k - 1));
            }
        } else {
            lemma_leaf_parent_shape(v, (k - 1) as nat, j);
        }
    }
}

/// `s` is the left sibling of a node on the path to `v`: a prefix of `v`
/// that ends in a set bit, with that bit cleared.
pub open spec fn is_left_sibling(s: Seq<bool>, v: Seq<bool>) -> bool {
    &&& 1 <= s.len() <= v.len()
    &&& !s.last()
    &&& v[s.len() - 1]
    &&& s.drop_last() == v.take(s.len() - 1)
}

/// Every parent of a node is labelled before the node in a depth-first walk.
pub proof fn lemma_parent_before(v: Seq<bool>, n: nat, j: int)
    requires
        v.len() <= n,
        0 <= j < parents(v, n).len(),
    ensures
        parents(v, n)[j].len() <= n,
        0 <= rank(parents(v, n)[j], n),
        rank(parents(v, n)[j], n) < rank(v, n) || (rank(parents(v, n)[j], n) == rank(v, n)
            && parents(v, n)[j].len() > v.len()),
{
    let p = parents(v, n)[j];
    if v.len() == n {
        lemma_leaf_parent_shape(v, n, j);
        let i = p.len() - 1;
        assert(p =~= v.take(i).push(false));
        lemma_rank_left_sibling(v, n, i);
    } else {
        assert(p.drop_last() =~= v);
        lemma_rank_bound(p, n);
        lemma_rank_bound(v, n);
        lemma_pow2_pos((n - p.len()) as nat);
    }
}

/// The eight bytes that stand for a node in a label and in a proof.
pub open spec fn encode(v: Seq<bool>) -> Seq<u8> {
    be_bytes(id_of(v))
}

/// The label of node `v` in the graph of depth `n` under the key `chi`.
pub open spec fn node_label(chi: Seq<u8>, n: nat, v: Seq<bool>) -> Seq<u8>
    decreases rank(v, n), n - v.len(), parents(v, n).len() + 1,
    when v.len() <= n
{
    digest(chi, node_input(chi, n, v, parents(v, n).len()))
}

/// What the label of `v` hashes, up to its first `j` parents: the framed
/// identifier of `v`, then the framed labels of those parents.
pub open spec fn node_input(chi: Seq<u8>, n: nat, v: Seq<bool>, j: nat) -> Seq<u8>
    decreases rank(v, n), n - v.len(), j,
    when v.len() <= n && j <= parents(v, n).len()
{
    if j == 0 {
        frame(encode(v))
    } else {
        proof {
            lemma_parent_before(v, n, j - 1);
        }
        node_input(chi, n, v, (j - 1) as nat) + frame(node_label(chi, n, parents(v, n)[j - 1]))
    }
}

/// The labels that the labeler keeps at hand while it works below `v`: those
/// of the left siblings of the nodes on the path to `v`.
pub open spec fn left_siblings(chi: Seq<u8>, n: nat, v: Seq<bool>) -> Map<Seq<bool>, Seq<u8>> {
    Map::new(|s: Seq<bool>| is_left_sibling(s, v), |s: Seq<bool>| node_label(chi, n, s))
}

/// The map `m` after every node of the subtree of `top` was offered to it
/// with its label: a node that was a key has its label, the root has its
/// label in any case, and nothing else has changed.
pub open spec fn filled_below(m: Map<Seq<bool>, Seq<u8>>, chi: Seq<u8>, n: nat, top: Seq<bool>) -> Map<
    Seq<bool>,
    Seq<u8>,
> {
    Map::new(
        |s: Seq<bool>| m.contains_key(s) || (s.len() == 0 && top.len() == 0),
        |s: Seq<bool>|
            if top.is_prefix_of(s) && s.len() <= n {
                node_label(chi, n, s)
            } else {
                m[s]
            },
    )
}

/// The map `m` after node `v` was offered to it with label `lab`: the map
/// keeps the label if `v` is one of its keys or the root.
pub open spec fn offered(m: Map<Seq<bool>, Seq<u8>>, v: Seq<bool>, lab: Seq<u8>) -> Map<
    Seq<bool>,
    Seq<u8>,
> {
    if m.contains_key(v) || v.len() == 0 {
        m.insert(v, lab)
    } else {
        m
    }
}

/// The map `m` after every node of the graph was offered to it.
pub open spec fn filled(m: Map<Seq<bool>, Seq<u8>>, chi: Seq<u8>, n: nat) -> Map<Seq<bool>, Seq<u8>> {
    filled_below(m, chi, n, Seq::empty())
}

/// Every node of the subtree of `v` with its label, in the order of a
/// depth-first walk: what lies below the left child, what lies below the
/// right child, then `v` itself.
pub open spec fn post_order(chi: Seq<u8>, n: nat, v: Seq<bool>) -> Seq<(Seq<bool>, Seq<u8>)>
    decreases n - v.len(),
{
    if v.len() < n {
        post_order(chi, n, v.push(false)) + post_order(chi, n, v.push(true)) + seq![
            (v, node_label(chi, n, v)),
        ]
    } else {
        seq![(v, node_label(chi, n, v))]
    }
}

/// Where the labeler sends its labels. The sink keeps a label when its node
/// is one of the keys that the sink was made with, or the root, and lets
/// every other label go.
pub struct LabelSink {
    kept: LabelMap,
    seen: Ghost<Seq<(Seq<bool>, Seq<u8>)>>,
}

impl LabelSink {
    /// The labels that the sink holds.
    pub closed spec fn kept(&self) -> Map<Seq<bool>, Seq<u8>> {
        self.kept@
    }

    /// Every node and label that the sink was offered, in order.
    pub closed spec fn seen(&self) -> Seq<(Seq<bool>, Seq<u8>)> {
        self.seen@
    }

    /// The map of the sink is well formed.
    pub closed spec fn wf(&self) -> bool {
        self.kept.wf()
    }

    /// A sink that keeps the labels of the keys of `keys`, and of the root.
    pub fn new(keys: LabelMap) -> (sink: LabelSink)
        requires
            keys.wf(),
        ensures
            sink.wf(),
            sink.kept() == keys@,
            sink.seen() == Seq::<(Seq<bool>, Seq<u8>)>::empty(),
    {
        LabelSink { kept: keys, seen: Ghost(Seq::empty()) }
    }

    /// Offers one label to the sink.
    pub fn offer(&mut self, nd: Node, lab: &Label)
        requires
            old(self).wf(),
            nd.wf(),
        ensures
            final(self).wf(),
            final(self).kept() == offered(old(self).kept(), nd@, lab@),
            final(self).seen() == old(self).seen().push((nd@, lab@)),
    {
        if self.kept.contains(nd) || nd.len == 0 {
            self.kept.insert(nd, lab.clone());
        }
        self.seen = Ghost(self.seen@.push((nd@, lab@)));
    }

    /// The labels that the sink has kept.
    pub fn into_map(self) -> (map: LabelMap)
        requires
            self.wf(),
        ensures
            map.wf(),
            map@ == self.kept(),
    {
        self.kept
    }
}

/// Computes the label of every node of the graph of depth `n` under the key
/// `chi`, and offers each to `sink`, once, in the order of a depth-first
/// walk: a node after everything below it, the left child before the right.
/// The labeler itself holds no more than `n` labels at a time.
pub fn calc_labels(chi: &[u8], n: usize, sink: &mut LabelSink)
    requires
        n <= MAX_LEN,
        old(sink).wf(),
    ensures
        final(sink).wf(),
        final(sink).seen() == old(sink).seen() + post_order(chi@, n as nat, Seq::empty()),
        final(sink).kept() == filled(old(sink).kept(), chi@, n as nat),
{
    let mut ell = LabelMap::new();
    let root = Node::new_zero();
    assert(ell@ =~= left_siblings(chi@, n as nat, root@));
    let _ = calc_labels_helper(chi, n, root, sink, &mut ell);
}

/// Labels the subtree of `nd`, left child first, and returns the label of
/// `nd`. On entry and on return `ell` holds the labels of the left siblings
/// along the path to `nd`, and nothing else.
fn calc_labels_helper(chi: &[u8], n: usize, nd: Node, sink: &mut LabelSink, ell: &mut LabelMap) -> (lab:
    Label)
    requires
        n <= MAX_LEN,
        nd.wf(),
        nd.len <= n,
        old(sink).wf(),
        old(ell).wf(),
        old(ell)@ == left_siblings(chi@, n as nat, nd@),
    ensures
        lab@ == node_label(chi@, n as nat, nd@),
        final(ell).wf(),
        final(ell)@ == old(ell)@,
        final(sink).wf(),
        final(sink).seen() == old(sink).seen() + post_order(chi@, n as nat, nd@),
        final(sink).kept() == filled_below(old(sink).kept(), chi@, n as nat, nd@),
    decreases n - nd.len,
{
    proof {
        lemma_view_node_of(nd);
    }
    let enc = nd.to_bytes();
    if nd.len == n {
        let mut acc = Accumulator::new(chi);
        acc.add(enc.as_slice());
        let ps = nd.get_parents(n);
        let mut j: usize = 0;
        while j < ps.len()
            invariant
                nd.wf(),
                nd.len == n,
                j <= ps@.len(),
                ps@.len() == parents(nd@, n as nat).len(),
                forall|i: int|
                    0 <= i < ps@.len() ==> (#[trigger] ps@[i]).wf() && ps@[i]@ == parents(nd@, n as nat)[i],
                ell@ == left_siblings(chi@, n as nat, nd@),
                acc.key() == chi@,
                acc.absorbed() == node_input(chi@, n as nat, nd@, j as nat),
            decreases ps@.len() - j,
        {
            let p = ps.get(j);
            proof {
                lemma_leaf_parent_shape(nd@, n as nat, j as int);
                assert(ell@.contains_key(p@));
            }
            let l = ell.get(p).unwrap();
            acc.add(l.as_slice());
            j += 1;
        }
        let lab = acc.hash();
        sink.offer(nd, &lab);
        proof {
            lemma_fill_leaf(old(sink).kept(), chi@, n as nat, nd@);
            assert(sink.seen() =~= old(sink).seen() + post_order(chi@, n as nat, nd@));
        }
        lab
    } else {
        let nd0 = nd.append(0);
        let nd1 = nd.append(1);
        proof {
            lemma_children(nd@);
            assert(left_siblings(chi@, n as nat, nd0@) =~= left_siblings(chi@, n as nat, nd@));
        }
        let l0 = calc_labels_helper(chi, n, nd0, sink, ell);
        ell.insert(nd0, l0.clone());
        proof {
            assert(ell@ =~= left_siblings(chi@, n as nat, nd1@));
        }
        let l1 = calc_labels_helper(chi, n, nd1, sink, ell);
        ell.remove(nd0);
        proof {
            assert(ell@ =~= old(ell)@);
        }
        let lab = Accumulator::new(chi).add(enc.as_slice()).add(l0.as_slice()).add(l1.as_slice()).hash();
        proof {
            let nn = n as nat;
            assert(parents(nd@, nn) =~= seq![nd0@, nd1@]);
            assert(node_input(chi@, nn, nd@, 1) == node_input(chi@, nn, nd@, 0) + frame(l0@));
            assert(node_input(chi@, nn, nd@, 2) == node_input(chi@, nn, nd@, 1) + frame(l1@));
        }
        sink.offer(nd, &lab);
        proof {
            lemma_fill_inner(old(sink).kept(), chi@, n as nat, nd@);
            assert(sink.seen() =~= old(sink).seen() + post_order(chi@, n as nat, nd@));
        }
        lab
    }
}

/// Offering a leaf its label fills the subtree of the leaf.
pub proof fn lemma_fill_leaf(m: Map<Seq<bool>, Seq<u8>>, chi: Seq<u8>, n: nat, v: Seq<bool>)
    requires
        v.len() == n,
    ensures
        offered(m, v, node_label(chi, n, v)) == filled_below(m, chi, n, v),
{
    let got = offered(m, v, node_label(chi, n, v));
    let want = filled_below(m, chi, n, v);
    assert forall|s: Seq<bool>|
        #![trigger got.contains_key(s)]
        #![trigger want.contains_key(s)]
        got.contains_key(s) == want.contains_key(s) && (want.contains_key(s) ==> got[s] == want[s]) by {
        if v.is_prefix_of(s) && s.len() <= n {
            assert(s =~= v);
        }
        if s.len() == 0 && v.len() == 0 {
            assert(s =~= v);
        }
    }
    assert(got =~= want);
}

/// Filling the subtrees of the two children of a node, and then offering
/// the node its label, fills the subtree of the node.
pub proof fn lemma_fill_inner(m: Map<Seq<bool>, Seq<u8>>, chi: Seq<u8>, n: nat, v: Seq<bool>)
    requires
        v.len() < n,
    ensures
        offered(
            filled_below(filled_below(m, chi, n, v.push(false)), chi, n, v.push(true)),
            v,
            node_label(chi, n, v),
        ) == filled_below(m, chi, n, v),
{
    let m1 = filled_below(m, chi, n, v.push(false));
    let m2 = filled_below(m1, chi, n, v.push(true));
    let got = offered(m2, v, node_label(chi, n, v));
    let want = filled_below(m, chi, n, v);
    assert forall|s: Seq<bool>|
        #![trigger got.contains_key(s)]
        #![trigger want.contains_key(s)]
        got.contains_key(s) == want.contains_key(s) && (want.contains_key(s) ==> got[s] == want[s]) by {
        lemma_below(v, s);
        if s.len() == 0 && v.len() == 0 {
            assert(s =~= v);
        }
    }
    assert(got =~= want);
}

/// The children of a node: what sets them apart from each other, from the
/// node, and from the left siblings along the path to the node.
pub proof fn lemma_children(v: Seq<bool>)
    ensures
        v.push(false) != v.push(true),
        v.push(false).drop_last() == v,
        v.push(true).drop_last() == v,
        forall|s: Seq<bool>| is_left_sibling(s, v.push(false)) <==> is_left_sibling(s, v),
        forall|s: Seq<bool>|
            is_left_sibling(s, v.push(true)) <==> (is_left_sibling(s, v) || s == v.push(false)),
        !is_left_sibling(v.push(false), v),
{
    let v0 = v.push(false);
    let v1 = v.push(true);
    assert(v0.last() != v1.last());
    assert(v0.drop_last() =~= v);
    assert(v1.drop_last() =~= v);
    assert forall|s: Seq<bool>| is_left_sibling(s, v0) <==> is_left_sibling(s, v) by {
        if 1 <= s.len() <= v.len() {
            assert(v0.take(s.len() - 1) =~= v.take(s.len() - 1));
        }
    }
    assert forall|s: Seq<bool>| is_left_sibling(s, v1) <==> (is_left_sibling(s, v) || s == v0) by {
        if 1 <= s.len() <= v.len() {
            assert(v1.take(s.len() - 1) =~= v.take(s.len() - 1));
        }
        if s.len() == v.len() + 1 {
            assert(v1.take(s.len() - 1) =~= v);
            if is_left_sibling(s, v1) {
                assert(s =~= v0);
            }
        }
    }
}

/// What lies below a node is the node itself or lies below one of its
/// children, and never below both.
pub proof fn lemma_below(v: Seq<bool>, s: Seq<bool>)
    ensures
        v.is_prefix_of(s) <==> (s == v || v.push(false).is_prefix_of(s) || v.push(true).is_prefix_of(s)),
        !(v.push(false).is_prefix_of(s) && v.push(true).is_prefix_of(s)),
        !v.push(false).is_prefix_of(v),
        !v.push(true).is_prefix_of(v),
{
    let v0 = v.push(false);
    let v1 = v.push(true);
    if v.is_prefix_of(s) {
        if s.len() == v.len() {
            assert(s =~= v);
        } else if s[v.len() as int] {
            assert(v1 =~= s.subrange(0, v1.len() as int));
        } else {
            assert(v0 =~= s.subrange(0, v0.len() as int));
        }
    }
    if v0.is_prefix_of(s) {
        assert(v =~= s.subrange(0, v.len() as int));
        assert(s[v.len() as int] == v0[v.len() as int]);
    }
    if v1.is_prefix_of(s) {
        assert(v =~= s.subrange(0, v.len() as int));
        assert(s[v.len() as int] == v1[v.len() as int]);
    }
}

/// The labels at hand while the labeler works below `v` are no more than
/// `v` has bits.
pub proof fn lemma_left_siblings_few(chi: Seq<u8>, n: nat, v: Seq<bool>)
    ensures
        left_siblings(chi, n, v).dom().finite(),
        left_siblings(chi, n, v).dom().len() <= v.len(),
    decreases v.len(),
{
    let here = left_siblings(chi, n, v).dom();
    if v.len() == 0 {
        assert(here =~= Set::<Seq<bool>>::empty());
    } else {
        let u = v.drop_last();
        let above = left_siblings(chi, n, u).dom();
        lemma_left_siblings_few(chi, n, u);
        lemma_children(u);
        assert(v =~= u.push(v.last()));
        if v.last() {
            assert(here =~= above.insert(u.push(false)));
        } else {
            assert(here =~= above);
        }
    }
}

/// A walk of the whole graph of depth `n` meets `2^(n+1) - 1` nodes.
pub proof fn lemma_post_order_len(chi: Seq<u8>, n: nat, v: Seq<bool>)
    requires
        v.len() <= n,
    ensures
        post_order(chi, n, v).len() == pow2((n - v.len() + 1) as nat) - 1,
    decreases n - v.len(),
{
    lemma_pow2_unfold((n - v.len() + 1) as nat);
    if v.len() < n {
        lemma_post_order_len(chi, n, v.push(false));
        lemma_post_order_len(chi, n, v.push(true));
    } else {
        assert(pow2(0) == 1) by {
            vstd::arithmetic::power2::lemma2_to64();
        }
    }
}

/// A depth-first walk of the subtree of `v` meets every node of the
/// subtree, each once, and carries the label of each.
pub proof fn lemma_post_order_once(chi: Seq<u8>, n: nat, v: Seq<bool>)
    requires
        v.len() <= n,
    ensures
        forall|i: int|
            0 <= i < post_order(chi, n, v).len() ==> {
                let e = #[trigger] post_order(chi, n, v)[i];
                v.is_prefix_of(e.0) && e.0.len() <= n && e.1 == node_label(chi, n, e.0)
            },
        forall|i: int, j: int|
            0 <= i < j < post_order(chi, n, v).len() ==> (#[trigger] post_order(chi, n, v)[i]).0 != (
            #[trigger] post_order(chi, n, v)[j]).0,
        forall|s: Seq<bool>|
            v.is_prefix_of(s) && s.len() <= n ==> exists|i: int|
                0 <= i < post_order(chi, n, v).len() && (#[trigger] post_order(chi, n, v)[i]).0 == s,
    decreases n - v.len(),
{
    let po = post_order(chi, n, v);
    if v.len() < n {
        let v0 = v.push(false);
        let v1 = v.push(true);
        let a = post_order(chi, n, v0);
        let b = post_order(chi, n, v1);
        lemma_post_order_once(chi, n, v0);
        lemma_post_order_once(chi, n, v1);
        assert(po =~= a + b + seq![(v, node_label(chi, n, v))]);
        assert(po.len() == a.len() + b.len() + 1);
        assert forall|i: int| 0 <= i < po.len() implies {
            let e = #[trigger] po[i];
            v.is_prefix_of(e.0) && e.0.len() <= n && e.1 == node_label(chi, n, e.0)
        } by {
            if i < a.len() {
                assert(po[i] == a[i]);
                lemma_below(v, a[i].0);
            } else if i < a.len() + b.len() {
                assert(po[i] == b[i - a.len()]);
                lemma_below(v, b[i - a.len()].0);
            } else {
                assert(v.is_prefix_of(v));
            }
        }
        assert forall|i: int, j: int| 0 <= i < j < po.len() implies (#[trigger] po[i]).0 != (
        #[trigger] po[j]).0 by {
            let x = po[i].0;
            let y = po[j].0;
            lemma_below(v, x);
            lemma_below(v, y);
            if i < a.len() {
                assert(po[i] == a[i]);
                if j < a.len() {
                    assert(po[j] == a[j]);
                } else if j < a.len() + b.len() {
                    assert(po[j] == b[j - a.len()]);
                }
            } else if i < a.len() + b.len() {
                assert(po[i] == b[i - a.len()]);
                if j < a.len() + b.len() {
                    assert(po[j] == b[j - a.len()]);
                }
            }
        }
        assert forall|s: Seq<bool>| v.is_prefix_of(s) && s.len() <= n implies exists|i: int|
            0 <= i < po.len() && (#[trigger] po[i]).0 == s by {
            lemma_below(v, s);
            if s == v {
                assert(po[po.len() - 1].0 == s);
            } else if v0.is_prefix_of(s) {
                let i = choose|i: int| 0 <= i < a.len() && (#[trigger] a[i]).0 == s;
                assert(po[i] == a[i]);
            } else {
                let i = choose|i: int| 0 <= i < b.len() && (#[trigger] b[i]).0 == s;
                assert(po[i + a.len()] == b[i]);
            }
        }
    } else {
        assert(v.is_prefix_of(v));
        assert forall|s: Seq<bool>| v.is_prefix_of(s) && s.len() <= n implies exists|i: int|
            0 <= i < po.len() && (#[trigger] po[i]).0 == s by {
            assert(s =~= v);
            assert(po[0].0 == s);
        }
    }
}

} // verus!
