//! Proofs of sequential work: making one, checking one, and the byte form
//! in which one travels.

use vstd::prelude::*;
use crate::challenge::{
    challenge, chi_of, gamma_to_path, gen_gammas, puzzle_key, sibling, PROOF_CERTAINTY,
};
use crate::codec::{
    decode, decode_records, encodes, lemma_decode_stops, lemma_listing_encodes, record_id, record_label,
    sort_ids, UNIT_SIZE,
};
use crate::hash::{append_bytes, digest, frame, Accumulator};
use crate::label::{Label, LABEL_SIZE};
use crate::laws::lemma_generated_proof_verifies;
use crate::labeler::{calc_labels, encode, filled, node_label, LabelSink};
use crate::node::{be_bytes, lemma_be_roundtrip, lemma_view_node_of, parents, u64_to_be, Node, MAX_LEN};
use crate::table::LabelMap;

verus! {

/// The nodes beside the path to `g` down to depth `j`.
pub open spec fn path_keys(g: Seq<bool>, j: nat) -> Set<Seq<bool>>
    decreases j,
{
    if j == 0 {
        Set::empty()
    } else {
        path_keys(g, (j - 1) as nat).insert(sibling(g, j - 1))
    }
}

/// The nodes whose labels answer challenge `g`: the nodes beside its path,
/// and `g` itself.
pub open spec fn challenge_keys(g: Seq<bool>) -> Set<Seq<bool>> {
    path_keys(g, g.len()).insert(g)
}

/// The nodes whose labels answer the first `i` challenges of a puzzle.
pub open spec fn keys_upto(puzzle: Seq<u8>, n: nat, i: nat) -> Set<Seq<bool>>
    decreases i,
{
    if i == 0 {
        Set::empty()
    } else {
        keys_upto(puzzle, n, (i - 1) as nat).union(challenge_keys(challenge(puzzle, n, (i - 1) as nat)))
    }
}

/// The nodes that a proof holds: the root, and what answers the challenges.
pub open spec fn proof_keys(puzzle: Seq<u8>, n: nat) -> Set<Seq<bool>> {
    keys_upto(puzzle, n, PROOF_CERTAINTY as nat).insert(Seq::empty())
}

/// The proof of work on a puzzle at depth `n`: each of its nodes with its
/// label.
pub open spec fn proof_map(puzzle: Seq<u8>, n: nat) -> Map<Seq<bool>, Seq<u8>> {
    Map::new(
        |s: Seq<bool>| proof_keys(puzzle, n).contains(s),
        |s: Seq<bool>| node_label(chi_of(puzzle), n, s),
    )
}

/// The nodes beside a path are finitely many, no more than the path is
/// long, and none is deeper than the path was followed.
pub proof fn lemma_path_keys(g: Seq<bool>, j: nat)
    requires
        j <= g.len(),
    ensures
        path_keys(g, j).finite(),
        path_keys(g, j).len() <= j,
        forall|s: Seq<bool>| #[trigger] path_keys(g, j).contains(s) ==> 1 <= s.len() <= j,
        forall|k: int| 0 <= k < j ==> path_keys(g, j).contains(#[trigger] sibling(g, k)),
    decreases j,
{
    if j > 0 {
        lemma_path_keys(g, (j - 1) as nat);
    }
}

/// The nodes that answer the first `i` challenges are finitely many, at
/// most `n + 1` for each challenge, and none is deeper than `n`. They
/// include what answers each of those challenges.
pub proof fn lemma_keys_upto(puzzle: Seq<u8>, n: nat, i: nat)
    ensures
        keys_upto(puzzle, n, i).finite(),
        keys_upto(puzzle, n, i).len() <= i * (n + 1),
        forall|s: Seq<bool>| #[trigger] keys_upto(puzzle, n, i).contains(s) ==> s.len() <= n,
        forall|k: nat|
            k < i ==> #[trigger] challenge_keys(challenge(puzzle, n, k)).subset_of(
                keys_upto(puzzle, n, i),
            ),
    decreases i,
{
    if i > 0 {
        let before = keys_upto(puzzle, n, (i - 1) as nat);
        let g = challenge(puzzle, n, (i - 1) as nat);
        lemma_keys_upto(puzzle, n, (i - 1) as nat);
        lemma_path_keys(g, n);
        vstd::set_lib::lemma_len_union(before, challenge_keys(g));
        assert(i * (n + 1) == (i - 1) * (n + 1) + (n + 1)) by (nonlinear_arith);
        if n == 0 {
            assert(challenge_keys(g).len() <= 1);
        }
        assert forall|k: nat| k < i implies #[trigger] challenge_keys(challenge(puzzle, n, k)).subset_of(
            keys_upto(puzzle, n, i),
        ) by {
            if k < i - 1 {
                assert(challenge_keys(challenge(puzzle, n, k)).subset_of(before));
            }
        }
    }
}

/// Offering every label of the graph to a map whose keys are the nodes
/// that answer the challenges leaves the proof of work.
pub proof fn lemma_fill_all(m: Map<Seq<bool>, Seq<u8>>, puzzle: Seq<u8>, n: nat)
    requires
        m.dom() == keys_upto(puzzle, n, PROOF_CERTAINTY as nat),
    ensures
        filled(m, chi_of(puzzle), n) == proof_map(puzzle, n),
{
    lemma_keys_upto(puzzle, n, PROOF_CERTAINTY as nat);
    let got = filled(m, chi_of(puzzle), n);
    let want = proof_map(puzzle, n);
    assert forall|s: Seq<bool>|
        #![trigger got.contains_key(s)]
        #![trigger want.contains_key(s)]
        got.contains_key(s) == want.contains_key(s) && (want.contains_key(s) ==> got[s] == want[s]) by {
        if s.len() == 0 {
            assert(s =~= Seq::<bool>::empty());
        }
        assert(Seq::<bool>::empty().is_prefix_of(s));
    }
    assert(got =~= want);
}

/// The proof of work holds at most one label for the root and `n + 1` for
/// each challenge, on nodes no deeper than `n`, each label 32 bytes long.
pub proof fn lemma_proof_map(puzzle: Seq<u8>, n: nat)
    requires
        n <= MAX_LEN,
    ensures
        well_formed(proof_map(puzzle, n)),
        proof_map(puzzle, n).dom().len() <= 1 + PROOF_CERTAINTY * (n + 1),
        forall|s: Seq<bool>| proof_map(puzzle, n).contains_key(s) ==> s.len() <= n,
{
    lemma_keys_upto(puzzle, n, PROOF_CERTAINTY as nat);
    assert(proof_map(puzzle, n).dom() =~= proof_keys(puzzle, n));
}

/// What the label of `g` hashes according to the map `m`, up to the first
/// `j` parents of `g`: the framed identifier of `g`, then the framed labels
/// that `m` holds for those parents.
pub open spec fn stored_input(m: Map<Seq<bool>, Seq<u8>>, n: nat, g: Seq<bool>, j: nat) -> Seq<u8>
    decreases j,
{
    if j == 0 {
        frame(encode(g))
    } else {
        stored_input(m, n, g, (j - 1) as nat) + frame(m[parents(g, n)[j - 1]])
    }
}

/// The map `m` holds a label for `g` and for each of its parents, and the
/// label of `g` is the hash of its identifier and the labels of its parents.
pub open spec fn leaf_ok(m: Map<Seq<bool>, Seq<u8>>, chi: Seq<u8>, n: nat, g: Seq<bool>) -> bool {
    &&& m.contains_key(g)
    &&& forall|j: int| 0 <= j < parents(g, n).len() ==> m.contains_key(#[trigger] parents(g, n)[j])
    &&& digest(chi, stored_input(m, n, g, parents(g, n).len())) == m[g]
}

/// The label that the map `m` implies for the prefix of length `i` of `g`:
/// the stored label of `g` itself, and further up the hash of the prefix's
/// identifier and the labels of its two children, of which the one on the
/// path is implied and the one beside it is stored. There is none if a node
/// beside the path has no label.
pub open spec fn fold(m: Map<Seq<bool>, Seq<u8>>, chi: Seq<u8>, g: Seq<bool>, i: nat) -> Option<Seq<u8>>
    decreases g.len() - i,
{
    if i >= g.len() {
        Some(m[g])
    } else {
        match fold(m, chi, g, i + 1) {
            None => None,
            Some(below) => {
                if !m.contains_key(sibling(g, i as int)) {
                    None
                } else if g[i as int] {
                    Some(
                        digest(
                            chi,
                            frame(encode(g.take(i as int))) + frame(m[sibling(g, i as int)]) + frame(below),
                        ),
                    )
                } else {
                    Some(
                        digest(
                            chi,
                            frame(encode(g.take(i as int))) + frame(below) + frame(m[sibling(g, i as int)]),
                        ),
                    )
                }
            },
        }
    }
}

/// Folding the path of `g` up to the root gives the root label that `m`
/// holds.
pub open spec fn path_ok(m: Map<Seq<bool>, Seq<u8>>, chi: Seq<u8>, g: Seq<bool>) -> bool {
    &&& m.contains_key(Seq::<bool>::empty())
    &&& fold(m, chi, g, 0) == Some(m[Seq::<bool>::empty()])
}

/// The map `m` answers challenge `g` in the graph of depth `n`.
pub open spec fn challenge_ok(m: Map<Seq<bool>, Seq<u8>>, chi: Seq<u8>, n: nat, g: Seq<bool>) -> bool {
    leaf_ok(m, chi, n, g) && path_ok(m, chi, g)
}

/// The map `m` is accepted as a proof of work on a puzzle at the given
/// difficulty: the difficulty is between 1 and 56, and `m` answers every
/// challenge of the puzzle.
pub open spec fn accepts(m: Map<Seq<bool>, Seq<u8>>, puzzle: Seq<u8>, difficulty: nat) -> bool {
    &&& 1 <= difficulty <= MAX_LEN
    &&& forall|i: nat|
        i < PROOF_CERTAINTY ==> challenge_ok(m, chi_of(puzzle), difficulty, #[trigger] challenge(puzzle, difficulty, i))
}

/// Once a node beside the path has no label, no label is implied further up.
pub proof fn lemma_fold_none(m: Map<Seq<bool>, Seq<u8>>, chi: Seq<u8>, g: Seq<bool>, i: nat)
    requires
        fold(m, chi, g, i) is None,
    ensures
        fold(m, chi, g, 0) is None,
    decreases i,
{
    if i > 0 {
        assert(i - 1 < g.len());
        assert(fold(m, chi, g, (i - 1) as nat) is None);
        lemma_fold_none(m, chi, g, (i - 1) as nat);
    }
}

/// A finite map keyed by valid identifiers, with labels of 32 bytes, is
/// well formed when taken by bit strings.
pub proof fn lemma_labels_by_bits(tab: Map<u64, Seq<u8>>)
    requires
        tab.dom().finite(),
        crate::table::valid_keys(tab),
        forall|id: u64| tab.contains_key(id) ==> (#[trigger] tab[id]).len() == LABEL_SIZE,
    ensures
        well_formed(crate::table::by_bits(tab)),
{
    crate::table::lemma_by_bits_size(tab);
}

/// A proof that a stated amount of sequential work was done on a puzzle.
#[derive(Debug)]
pub struct Proof {
    map: LabelMap,
}

impl View for Proof {
    type V = Map<Seq<bool>, Seq<u8>>;

    /// The labels that the proof holds, by the bit strings of their nodes.
    closed spec fn view(&self) -> Map<Seq<bool>, Seq<u8>> {
        self.map@
    }
}

/// What holds of the labels of every proof: there are finitely many, each
/// on a node of at most 56 bits, each 32 bytes long.
pub open spec fn well_formed(m: Map<Seq<bool>, Seq<u8>>) -> bool {
    &&& m.dom().finite()
    &&& forall|s: Seq<bool>| m.contains_key(s) ==> s.len() <= MAX_LEN && (#[trigger] m[s]).len() == LABEL_SIZE
}

impl Proof {
    #[verifier::type_invariant]
    spec fn inv(self) -> bool {
        &&& self.map.wf()
        &&& forall|id: u64| self.map.ids().contains_key(id) ==> (#[trigger] self.map.ids()[id]).len() == LABEL_SIZE
    }

    /// Does the work that the puzzle asks for at the given difficulty, and
    /// keeps the labels that answer the challenges of the puzzle.
    pub fn generate(puzzle: &[u8], difficulty: usize) -> (proof: Proof)
        requires
            1 <= difficulty <= MAX_LEN,
        ensures
            proof@ == proof_map(puzzle@, difficulty as nat),
            well_formed(proof@),
            proof@.dom().len() <= 1 + PROOF_CERTAINTY * (difficulty + 1),
            accepts(proof@, puzzle@, difficulty as nat),
    {
        let ghost n = difficulty as nat;
        let mut map = LabelMap::new();
        let chi = puzzle_key(puzzle);
        let gammas = gen_gammas(puzzle, difficulty);
        let mut i: usize = 0;
        while i < gammas.len()
            invariant
                1 <= difficulty <= MAX_LEN,
                n == difficulty,
                i <= gammas@.len(),
                gammas@.len() == PROOF_CERTAINTY,
                forall|k: int|
                    0 <= k < PROOF_CERTAINTY ==> (#[trigger] gammas@[k]).wf() && gammas@[k]@ == challenge(
                        puzzle@,
                        n,
                        k as nat,
                    ),
                map.wf(),
                map@.dom() == keys_upto(puzzle@, n, i as nat),
            decreases gammas@.len() - i,
        {
            let gamma = gammas[i];
            let path = gamma_to_path(gamma);
            let mut j: usize = 0;
            while j < path.len()
                invariant
                    gamma.wf(),
                    gamma.len == n,
                    gamma@ == challenge(puzzle@, n, i as nat),
                    j <= path@.len(),
                    path@.len() == gamma.len,
                    forall|k: int|
                        0 <= k < gamma.len ==> (#[trigger] path@[k]).wf() && path@[k]@ == sibling(gamma@, k),
                    map.wf(),
                    map@.dom() == keys_upto(puzzle@, n, i as nat).union(path_keys(gamma@, j as nat)),
                decreases path@.len() - j,
            {
                map.insert(path[j], Label::empty());
                j += 1;
            }
            map.insert(gamma, Label::empty());
            i += 1;
        }
        let ghost before = map@;
        let mut sink = LabelSink::new(map);
        calc_labels(chi.as_slice(), difficulty, &mut sink);
        let map = sink.into_map();
        proof {
            lemma_fill_all(before, puzzle@, n);
            lemma_proof_map(puzzle@, n);
            lemma_generated_proof_verifies(puzzle@, n);
            map.lemma_same_size();
            assert forall|id: u64| map.ids().contains_key(id) implies (#[trigger] map.ids()[id]).len()
                == LABEL_SIZE by {
                crate::table::lemma_bits_of_id(id);
                let s = crate::table::bits_of_id(id);
                assert(map@.contains_key(s));
                assert(map@[s] == map.ids()[id]);
            }
        }
        Proof { map }
    }

    /// Whether the proof shows the work that the puzzle asks for at the
    /// given difficulty. A difficulty of 0 or above 56 is never accepted.
    #[must_use]
    pub fn verify(&self, puzzle: &[u8], difficulty: usize) -> (ok: bool)
        ensures
            ok == accepts(self@, puzzle@, difficulty as nat),
    {
        if difficulty == 0 || difficulty > MAX_LEN {
            return false;
        }
        let ghost n = difficulty as nat;
        let chi = puzzle_key(puzzle);
        let gammas = gen_gammas(puzzle, difficulty);
        let phi = match self.map.get(Node::new_zero()) {
            Some(l) => l,
            None => {
                assert(!challenge_ok(self@, chi@, n, challenge(puzzle@, n, 0)));
                return false;
            },
        };
        let mut i: usize = 0;
        while i < gammas.len()
            invariant
                1 <= difficulty <= MAX_LEN,
                n == difficulty,
                chi@ == chi_of(puzzle@),
                i <= gammas@.len(),
                gammas@.len() == PROOF_CERTAINTY,
                forall|k: int|
                    0 <= k < PROOF_CERTAINTY ==> (#[trigger] gammas@[k]).wf() && gammas@[k]@ == challenge(
                        puzzle@,
                        n,
                        k as nat,
                    ),
                self@.contains_key(Seq::<bool>::empty()),
                phi@ == self@[Seq::<bool>::empty()],
                forall|k: nat|
                    k < i ==> challenge_ok(self@, chi@, n, #[trigger] challenge(puzzle@, n, k)),
            decreases gammas@.len() - i,
        {
            let gamma = gammas[i];
            if !self.check_challenge(chi.as_slice(), gamma, difficulty, phi) {
                assert(!challenge_ok(self@, chi@, n, challenge(puzzle@, n, i as nat)));
                return false;
            }
            i += 1;
        }
        true
    }

    /// The byte form of the proof: a record of 40 bytes for each label, in
    /// increasing order of the identifiers of the nodes.
    pub fn to_bytes(&self) -> (bytes: Vec<u8>)
        ensures
            encodes(bytes@, self@),
            bytes@.len() == UNIT_SIZE * self@.dom().len(),
            well_formed(self@),
    {
        proof {
            use_type_invariant(self);
            lemma_labels_by_bits(self.map.ids());
        }
        let listed = self.map.id_list();
        let ids = sort_ids(&listed);
        let ghost tab = self.map.ids();
        let mut out: Vec<u8> = Vec::new();
        let mut i: usize = 0;
        while i < ids.len()
            invariant
                i <= ids@.len(),
                ids@.to_set() == tab.dom(),
                forall|id: u64| tab.contains_key(id) ==> (#[trigger] tab[id]).len() == LABEL_SIZE,
                tab == self.map.ids(),
                out@.len() == 40 * i,
                forall|k: int| 0 <= k < i ==> #[trigger] record_id(out@, k) == ids@[k],
                forall|k: int| 0 <= k < i ==> #[trigger] record_label(out@, k) == tab[ids@[k]],
            decreases ids@.len() - i,
        {
            let id = ids[i];
            assert(ids@.to_set().contains(id));
            let enc = u64_to_be(id);
            let lab = self.map.get_by_id(id).unwrap();
            let ghost before = out@;
            append_bytes(&mut out, enc.as_slice());
            append_bytes(&mut out, lab.as_slice());
            proof {
                lemma_be_roundtrip(id);
                assert(out@.subrange(40 * i, 40 * i + 8) =~= be_bytes(id));
                assert(out@.subrange(40 * i + 8, 40 * i + 40) =~= lab@);
                assert forall|k: int| 0 <= k < i implies #[trigger] record_id(out@, k) == ids@[k] by {
                    assert(out@.subrange(40 * k, 40 * k + 8) =~= before.subrange(40 * k, 40 * k + 8));
                    assert(record_id(before, k) == ids@[k]);
                }
                assert forall|k: int| 0 <= k < i implies #[trigger] record_label(out@, k) == tab[ids@[k]] by {
                    assert(out@.subrange(40 * k + 8, 40 * k + 40) =~= before.subrange(
                        40 * k + 8,
                        40 * k + 40,
                    ));
                    assert(record_label(before, k) == tab[ids@[k]]);
                }
                assert(lab@.len() == LABEL_SIZE);
                assert(record_id(out@, i as int) == id);
                assert(record_label(out@, i as int) == tab[id]);
            }
            i += 1;
        }
        proof {
            lemma_listing_encodes(out@, ids@, tab);
        }
        out
    }

    /// Reads a proof from its byte form. The bytes must be a whole number of
    /// records of 40 bytes, each starting with the identifier of a node of at
    /// most 56 bits; where two records name the same node, the later one
    /// counts.
    pub fn from_bytes(bts: &[u8]) -> (r: Option<Proof>)
        ensures
            match r {
                Some(p) => decode(bts@) == Some(p@) && well_formed(p@),
                None => decode(bts@) is None,
            },
    {
        if bts.len() % UNIT_SIZE != 0 {
            return None;
        }
        let count = bts.len() / UNIT_SIZE;
        let mut map = LabelMap::new();
        let mut k: usize = 0;
        while k < count
            invariant
                k <= count,
                bts@.len() == 40 * count,
                bts@.len() <= usize::MAX,
                map.wf(),
                forall|id: u64| map.ids().contains_key(id) ==> (#[trigger] map.ids()[id]).len() == LABEL_SIZE,
                decode_records(bts@, k as nat) == Some(map@),
            decreases count - k,
        {
            assert(UNIT_SIZE == 40);
            assert(40 * k + 40 <= bts@.len());
            let start = k * UNIT_SIZE;
            let head = vstd::slice::slice_subrange(bts, start, start + 8);
            let body = vstd::slice::slice_subrange(bts, start + 8, start + UNIT_SIZE);
            match Node::from_bytes(head) {
                Some(nd) => {
                    map.insert(nd, Label::from_slice(body));
                },
                None => {
                    proof {
                        lemma_decode_stops(bts@, (k + 1) as nat, count as nat);
                    }
                    return None;
                },
            }
            k += 1;
        }
        proof {
            map.lemma_same_size();
            lemma_labels_by_bits(map.ids());
        }
        Some(Proof { map })
    }

    /// Whether the proof answers one challenge: the stored label of the
    /// challenged leaf is the hash of the stored labels of its parents, and
    /// the path from the leaf folds up to the stored root label `phi`.
    fn check_challenge(&self, chi: &[u8], gamma: Node, n: usize, phi: &Label) -> (ok: bool)
        requires
            1 <= n <= MAX_LEN,
            gamma.wf(),
            gamma.len == n,
            self@.contains_key(Seq::<bool>::empty()),
            phi@ == self@[Seq::<bool>::empty()],
        ensures
            ok == challenge_ok(self@, chi@, n as nat, gamma@),
    {
        proof {
            lemma_view_node_of(gamma);
        }
        let label = match self.map.get(gamma) {
            Some(l) => l,
            None => {
                return false;
            },
        };
        let enc = gamma.to_bytes();
        let mut hasher = Accumulator::new(chi);
        hasher.add(enc.as_slice());
        let ps = gamma.get_parents(n);
        let mut j: usize = 0;
        while j < ps.len()
            invariant
                j <= ps@.len(),
                ps@.len() == parents(gamma@, n as nat).len(),
                forall|k: int|
                    0 <= k < ps@.len() ==> (#[trigger] ps@[k]).wf() && ps@[k]@ == parents(gamma@, n as nat)[k],
                forall|k: int| 0 <= k < j ==> self@.contains_key(#[trigger] parents(gamma@, n as nat)[k]),
                hasher.key() == chi@,
                hasher.absorbed() == stored_input(self@, n as nat, gamma@, j as nat),
            decreases ps@.len() - j,
        {
            match self.map.get(ps.get(j)) {
                Some(parlab) => {
                    hasher.add(parlab.as_slice());
                },
                None => {
                    assert(!self@.contains_key(parents(gamma@, n as nat)[j as int]));
                    return false;
                },
            }
            j += 1;
        }
        if !hasher.hash().same(label) {
            return false;
        }
        let mut cur: Label = label.clone();
        let mut index: usize = n;
        while index > 0
            invariant
                gamma.wf(),
                gamma.len == n,
                n <= MAX_LEN,
                index <= n,
                fold(self@, chi@, gamma@, index as nat) == Some(cur@),
            decreases index,
        {
            index -= 1;
            let prefix = gamma.take(index);
            let bit = gamma.get_bit(index);
            let other: usize = if bit == 1 { 0 } else { 1 };
            let beside = prefix.append(other);
            assert(beside@ == sibling(gamma@, index as int));
            let enc = prefix.to_bytes();
            proof {
                lemma_view_node_of(prefix);
            }
            let mut h = Accumulator::new(chi);
            h.add(enc.as_slice());
            match self.map.get(beside) {
                Some(stored) => {
                    if bit == 1 {
                        h.add(stored.as_slice());
                        h.add(cur.as_slice());
                    } else {
                        h.add(cur.as_slice());
                        h.add(stored.as_slice());
                    }
                },
                None => {
                    proof {
                        lemma_fold_none(self@, chi@, gamma@, index as nat);
                    }
                    return false;
                },
            }
            cur = h.hash();
        }
        cur.same(phi)
    }
}

impl Clone for Proof {
    /// A proof with the same labels for the same nodes.
    fn clone(&self) -> (r: Proof)
        ensures
            r@ == self@,
    {
        proof {
            use_type_invariant(self);
        }
        Proof { map: self.map.clone() }
    }
}

impl PartialEq for Proof {
    /// Two proofs are equal when they hold the same labels for the same
    /// nodes.
    fn eq(&self, other: &Proof) -> (r: bool) {
        proof {
            use_type_invariant(self);
            use_type_invariant(other);
        }
        let ok = holds_all(&self.map, &other.map) && holds_all(&other.map, &self.map);
        proof {
            if ok {
                let a = self.map.ids();
                let b = other.map.ids();
                assert forall|id: u64|
                    #![trigger a.contains_key(id)]
                    #![trigger b.contains_key(id)]
                    a.contains_key(id) == b.contains_key(id) && (a.contains_key(id) ==> a[id] == b[id]) by {
                    if b.contains_key(id) {
                        assert(a.contains_key(id));
                    }
                }
                assert(a =~= b);
            }
        }
        ok
    }
}

/// Whether `b` holds every label of `a`, on the same node.
fn holds_all(a: &LabelMap, b: &LabelMap) -> (r: bool)
    requires
        a.wf(),
    ensures
        r == (forall|id: u64| #[trigger]
            a.ids().contains_key(id) ==> b.ids().contains_key(id) && a.ids()[id] == b.ids()[id]),
        !r ==> a@ != b@,
{
    let ids = a.id_list();
    let mut i: usize = 0;
    while i < ids.len()
        invariant
            i <= ids@.len(),
            a.wf(),
            ids@.to_set() == a.ids().dom(),
            forall|k: int|
                0 <= k < i ==> b.ids().contains_key(#[trigger] ids@[k]) && b.ids()[ids@[k]] == a.ids()[ids@[k]],
        decreases ids@.len() - i,
    {
        let id = ids[i];
        assert(ids@.to_set().contains(id));
        let mine = a.get_by_id(id).unwrap();
        match b.get_by_id(id) {
            Some(theirs) => {
                if !mine.same(theirs) {
                    proof {
                        lemma_differ_at(a.ids(), b.ids(), id);
                    }
                    return false;
                }
            },
            None => {
                proof {
                    lemma_differ_at(a.ids(), b.ids(), id);
                }
                return false;
            },
        }
        i += 1;
    }
    proof {
        assert forall|id: u64| #[trigger] a.ids().contains_key(id) implies b.ids().contains_key(id)
            && a.ids()[id] == b.ids()[id] by {
            assert(ids@.to_set().contains(id));
            let k = choose|k: int| 0 <= k < ids@.len() && ids@[k] == id;
            assert(b.ids().contains_key(ids@[k]));
        }
    }
    true
}

impl vstd::std_specs::cmp::PartialEqSpecImpl for Proof {
    open spec fn obeys_eq_spec() -> bool {
        true
    }

    open spec fn eq_spec(&self, other: &Proof) -> bool {
        self@ == other@
    }
}

impl Eq for Proof {

}

/// Maps keyed by valid identifiers that differ at a key of the first differ
/// when taken by bit strings.
pub proof fn lemma_differ_at(a: Map<u64, Seq<u8>>, b: Map<u64, Seq<u8>>, id: u64)
    requires
        crate::table::valid_keys(a),
        a.contains_key(id),
        !b.contains_key(id) || a[id] != b[id],
    ensures
        crate::table::by_bits(a) != crate::table::by_bits(b),
{
    crate::table::lemma_bits_of_id(id);
    let s = crate::table::bits_of_id(id);
    assert(crate::table::by_bits(a).contains_key(s));
    assert(crate::table::by_bits(a)[s] == a[id]);
    if crate::table::by_bits(b).contains_key(s) {
        assert(crate::table::by_bits(b)[s] == b[id]);
    }
}

} // verus!
