//! What holds of making, checking and encoding proofs, whatever the puzzle.

use vstd::prelude::*;
use crate::challenge::{challenge, chi_of, sibling, PROOF_CERTAINTY};
use crate::codec::{decode, encodes, lemma_decode_encoding, lemma_encoding_unique};
use crate::hash::frame;
use crate::labeler::{lemma_leaf_parent_shape, node_input, node_label};
use crate::node::{parents, MAX_LEN};
use crate::work_proof::{
    accepts, challenge_keys, challenge_ok, fold, keys_upto, leaf_ok, lemma_keys_upto, lemma_path_keys,
    lemma_proof_map, path_keys, path_ok, proof_map, stored_input,
};

verus! {

/// The proof of work on a puzzle holds a label for each challenge, for each
/// node beside the path to a challenge, and for the root.
pub proof fn lemma_proof_holds(puzzle: Seq<u8>, n: nat, i: nat)
    requires
        i < PROOF_CERTAINTY,
    ensures
        proof_map(puzzle, n).contains_key(Seq::<bool>::empty()),
        proof_map(puzzle, n).contains_key(challenge(puzzle, n, i)),
        forall|k: int|
            0 <= k < n ==> proof_map(puzzle, n).contains_key(#[trigger] sibling(challenge(puzzle, n, i), k)),
{
    let g = challenge(puzzle, n, i);
    lemma_keys_upto(puzzle, n, PROOF_CERTAINTY as nat);
    lemma_path_keys(g, n);
    assert(challenge_keys(g).subset_of(keys_upto(puzzle, n, PROOF_CERTAINTY as nat)));
    assert(challenge_keys(g).contains(g));
    assert forall|k: int| 0 <= k < n implies proof_map(puzzle, n).contains_key(
        #[trigger] sibling(g, k),
    ) by {
        assert(path_keys(g, n).contains(sibling(g, k)));
        assert(challenge_keys(g).contains(sibling(g, k)));
    }
}

/// Where a map holds the true labels of the first `j` parents of a node,
/// what it makes the label of the node hash is what the label does hash.
pub proof fn lemma_stored_input(m: Map<Seq<bool>, Seq<u8>>, chi: Seq<u8>, n: nat, g: Seq<bool>, j: nat)
    requires
        g.len() <= n,
        j <= parents(g, n).len(),
        forall|k: int|
            0 <= k < j ==> m.contains_key(#[trigger] parents(g, n)[k]) && parents(g, n)[k].len() <= n
                && m[parents(g, n)[k]] == node_label(chi, n, parents(g, n)[k]),
    ensures
        stored_input(m, n, g, j) == node_input(chi, n, g, j),
    decreases j,
{
    if j > 0 {
        lemma_stored_input(m, chi, n, g, (j - 1) as nat);
        let p = parents(g, n)[j - 1];
        assert(m[p] == node_label(chi, n, p));
        assert(node_input(chi, n, g, j) == node_input(chi, n, g, (j - 1) as nat) + frame(
            node_label(chi, n, p),
        ));
    }
}

/// In the proof of work, the label implied for each prefix of a challenge
/// is the label of that prefix.
pub proof fn lemma_fold_is_label(puzzle: Seq<u8>, n: nat, i: nat, k: nat)
    requires
        n <= MAX_LEN,
        i < PROOF_CERTAINTY,
        k <= n,
    ensures
        fold(proof_map(puzzle, n), chi_of(puzzle), challenge(puzzle, n, i), k) == Some(
            node_label(chi_of(puzzle), n, challenge(puzzle, n, i).take(k as int)),
        ),
    decreases n - k,
{
    let m = proof_map(puzzle, n);
    let chi = chi_of(puzzle);
    let g = challenge(puzzle, n, i);
    lemma_proof_holds(puzzle, n, i);
    if k == n {
        assert(g.take(k as int) =~= g);
    } else {
        lemma_fold_is_label(puzzle, n, i, k + 1);
        let u = g.take(k as int);
        let on_path = g.take(k as int + 1);
        let beside = sibling(g, k as int);
        assert(m.contains_key(beside));
        assert(on_path =~= u.push(g[k as int]));
        assert(parents(u, n) =~= seq![u.push(false), u.push(true)]);
        assert(node_input(chi, n, u, 1) == node_input(chi, n, u, 0) + frame(node_label(chi, n, u.push(false))));
        assert(node_input(chi, n, u, 2) == node_input(chi, n, u, 1) + frame(node_label(chi, n, u.push(true))));
    }
}

/// A proof made for a puzzle at a difficulty between 1 and 56 is accepted
/// for that puzzle at that difficulty.
pub proof fn lemma_generated_proof_verifies(puzzle: Seq<u8>, difficulty: nat)
    requires
        1 <= difficulty <= MAX_LEN,
    ensures
        accepts(proof_map(puzzle, difficulty), puzzle, difficulty),
{
    let n = difficulty;
    let m = proof_map(puzzle, n);
    let chi = chi_of(puzzle);
    assert forall|i: nat| i < PROOF_CERTAINTY implies challenge_ok(m, chi, n, #[trigger] challenge(puzzle, n, i)) by {
        let g = challenge(puzzle, n, i);
        lemma_proof_holds(puzzle, n, i);
        assert forall|j: int| 0 <= j < parents(g, n).len() implies m.contains_key(
            #[trigger] parents(g, n)[j],
        ) by {
            let p = parents(g, n)[j];
            lemma_leaf_parent_shape(g, n, j);
            assert(p =~= sibling(g, p.len() - 1));
        }
        assert forall|j: int| 0 <= j < parents(g, n).len() implies (#[trigger] parents(g, n)[j]).len()
            <= n by {
            lemma_leaf_parent_shape(g, n, j);
        }
        lemma_stored_input(m, chi, n, g, parents(g, n).len());
        assert(leaf_ok(m, chi, n, g));
        lemma_fold_is_label(puzzle, n, i, 0);
        assert(g.take(0) =~= Seq::<bool>::empty());
        assert(path_ok(m, chi, g));
    }
}

/// A proof made at one difficulty is rejected at every higher one: the
/// challenges of the higher difficulty lie deeper than any node of the
/// proof.
pub proof fn lemma_rejects_higher_difficulty(puzzle: Seq<u8>, made: nat, asked: nat)
    requires
        1 <= made < asked,
    ensures
        !accepts(proof_map(puzzle, made), puzzle, asked),
{
    if asked <= MAX_LEN {
        lemma_proof_map(puzzle, made);
        let g = challenge(puzzle, asked, 0);
        assert(!proof_map(puzzle, made).contains_key(g));
        assert(!challenge_ok(proof_map(puzzle, made), chi_of(puzzle), asked, g));
    }
}

/// Reading the byte form of a proof gives the proof back, label for label.
pub proof fn lemma_bytes_roundtrip(bytes: Seq<u8>, m: Map<Seq<bool>, Seq<u8>>)
    requires
        encodes(bytes, m),
    ensures
        decode(bytes) == Some(m),
{
    lemma_decode_encoding(bytes, m);
}

/// Making a proof twice for one puzzle and one difficulty gives the same
/// bytes: the labels are a function of puzzle and difficulty, and a set of
/// labels has one byte form.
pub proof fn lemma_generate_deterministic(puzzle: Seq<u8>, difficulty: nat, first: Seq<u8>, second: Seq<u8>)
    requires
        encodes(first, proof_map(puzzle, difficulty)),
        encodes(second, proof_map(puzzle, difficulty)),
    ensures
        first == second,
{
    lemma_encoding_unique(first, second, proof_map(puzzle, difficulty));
}

/// The byte form of a proof made at difficulty `d` is at most
/// `40 * (1 + 200 * (d + 1))` bytes long: a record for the root, and for
/// each challenge one for the leaf and one for each node beside its path.
pub proof fn lemma_proof_size_bound(puzzle: Seq<u8>, difficulty: nat, bytes: Seq<u8>)
    requires
        difficulty <= MAX_LEN,
        encodes(bytes, proof_map(puzzle, difficulty)),
    ensures
        bytes.len() <= 40 * (1 + PROOF_CERTAINTY * (difficulty + 1)),
{
    lemma_proof_map(puzzle, difficulty);
}

} // verus!
