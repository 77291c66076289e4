//! The challenges that a puzzle poses: leaves of the graph picked by hashing
//! the puzzle, and the nodes beside the path to each of them.

use vstd::prelude::*;
use vstd::bytes::{spec_u64_from_le_bytes, u64_from_le_bytes};
use crate::bits::{bit, bit_at, lemma_bits_fit};
use crate::hash::{bts_key, digest, append_bytes};
use crate::label::Label;
use crate::node::{Node, MAX_LEN};

verus! {

/// The number of challenges that a proof answers.
pub const PROOF_CERTAINTY: usize = 200;

/// The key under which the puzzle is hashed to the key of the labels: the
/// letters `chi`.
pub open spec fn chi_key() -> Seq<u8> {
    seq![0x63u8, 0x68u8, 0x69u8]
}

/// The letters `gamma-`.
pub open spec fn gamma_prefix() -> Seq<u8> {
    seq![0x67u8, 0x61u8, 0x6du8, 0x6du8, 0x61u8, 0x2du8]
}

/// The decimal digits of `i` in ASCII.
pub open spec fn decimal(i: nat) -> Seq<u8>
    decreases i,
{
    if i < 10 {
        seq![(48 + i) as u8]
    } else {
        decimal(i / 10).push((48 + i % 10) as u8)
    }
}

/// The key under which the puzzle is hashed to the seed of challenge `i`:
/// the letters `gamma-` and the decimal digits of `i`.
pub open spec fn gamma_key(i: nat) -> Seq<u8> {
    gamma_prefix() + decimal(i)
}

/// The key of the labels of a puzzle.
pub open spec fn chi_of(puzzle: Seq<u8>) -> Seq<u8> {
    digest(chi_key(), puzzle)
}

/// The word from which challenge `i` of a puzzle is cut: the first eight
/// bytes of its seed, least significant first.
pub open spec fn challenge_word(puzzle: Seq<u8>, i: nat) -> u64 {
    spec_u64_from_le_bytes(digest(gamma_key(i), puzzle).take(8))
}

/// Challenge `i` of a puzzle at depth `n`: the `n` highest bits of its word,
/// the highest first.
pub open spec fn challenge(puzzle: Seq<u8>, n: nat, i: nat) -> Seq<bool> {
    Seq::new(n, |j: int| bit_at(challenge_word(puzzle, i), 63 - j))
}

/// The node beside the path to `v` at depth `i + 1`: the prefix of length
/// `i` with the next bit of `v` flipped.
pub open spec fn sibling(v: Seq<bool>, i: int) -> Seq<bool> {
    v.take(i).push(!v[i])
}

/// The key of the labels of a puzzle.
pub fn puzzle_key(puzzle: &[u8]) -> (chi: Label)
    ensures
        chi@ == chi_of(puzzle@),
{
    let key: [u8; 3] = [0x63, 0x68, 0x69];
    assert(key@ =~= chi_key());
    bts_key(puzzle, key.as_slice())
}

/// The word with the bits of `x` in reverse order.
pub fn reverse_bits(x: u64) -> (r: u64)
    ensures
        forall|i: int| 0 <= i < 64 ==> #[trigger] bit_at(r, i) == bit_at(x, 63 - i),
{
    let a: u64 = ((x >> 1) & 0x5555555555555555) | ((x & 0x5555555555555555) << 1);
    let b: u64 = ((a >> 2) & 0x3333333333333333) | ((a & 0x3333333333333333) << 2);
    let c: u64 = ((b >> 4) & 0x0f0f0f0f0f0f0f0f) | ((b & 0x0f0f0f0f0f0f0f0f) << 4);
    let d: u64 = ((c >> 8) & 0x00ff00ff00ff00ff) | ((c & 0x00ff00ff00ff00ff) << 8);
    let e: u64 = ((d >> 16) & 0x0000ffff0000ffff) | ((d & 0x0000ffff0000ffff) << 16);
    let r: u64 = (e >> 32) | (e << 32);
    proof {
        assert forall|i: int| 0 <= i < 64 implies #[trigger] bit_at(r, i) == bit_at(x, 63 - i) by {
            let k = i as u64;
            assert(bit(r, k) == bit(x, (63 - k) as u64)) by (bit_vector)
                requires
                    k < 64,
                    a == ((x >> 1) & 0x5555555555555555) | ((x & 0x5555555555555555) << 1),
                    b == ((a >> 2) & 0x3333333333333333) | ((a & 0x3333333333333333) << 2),
                    c == ((b >> 4) & 0x0f0f0f0f0f0f0f0f) | ((b & 0x0f0f0f0f0f0f0f0f) << 4),
                    d == ((c >> 8) & 0x00ff00ff00ff00ff) | ((c & 0x00ff00ff00ff00ff) << 8),
                    e == ((d >> 16) & 0x0000ffff0000ffff) | ((d & 0x0000ffff0000ffff) << 16),
                    r == (e >> 32) | (e << 32),
            ;
        }
    }
    r
}

/// Appends the decimal digits of `i` to `out`.
pub fn push_decimal(out: &mut Vec<u8>, i: usize)
    ensures
        final(out)@ == old(out)@ + decimal(i as nat),
    decreases i,
{
    if i >= 10 {
        push_decimal(out, i / 10);
    }
    let digit: u8 = 48 + (i % 10) as u8;
    out.push(digit);
    assert(out@ =~= old(out)@ + decimal(i as nat));
}

/// The challenges of a puzzle at the given difficulty.
pub fn gen_gammas(puzzle: &[u8], difficulty: usize) -> (gammas: Vec<Node>)
    requires
        1 <= difficulty <= MAX_LEN,
    ensures
        gammas@.len() == PROOF_CERTAINTY,
        forall|i: int|
            0 <= i < PROOF_CERTAINTY ==> (#[trigger] gammas@[i]).wf() && gammas@[i]@ == challenge(
                puzzle@,
                difficulty as nat,
                i as nat,
            ),
{
    let mut gammas: Vec<Node> = Vec::new();
    let mut index: usize = 0;
    while index < PROOF_CERTAINTY
        invariant
            1 <= difficulty <= MAX_LEN,
            index <= PROOF_CERTAINTY,
            gammas@.len() == index,
            forall|i: int|
                0 <= i < index ==> (#[trigger] gammas@[i]).wf() && gammas@[i]@ == challenge(
                    puzzle@,
                    difficulty as nat,
                    i as nat,
                ),
        decreases PROOF_CERTAINTY - index,
    {
        let mut key: Vec<u8> = Vec::new();
        let prefix: [u8; 6] = [0x67, 0x61, 0x6d, 0x6d, 0x61, 0x2d];
        append_bytes(&mut key, prefix.as_slice());
        push_decimal(&mut key, index);
        assert(key@ =~= gamma_key(index as nat));
        let g_seed = bts_key(puzzle, key.as_slice());
        let head = vstd::slice::slice_subrange(g_seed.as_slice(), 0, 8);
        assert(head@ =~= g_seed@.take(8));
        let g_int: u64 = u64_from_le_bytes(head);
        let shift: u64 = (64 - difficulty) as u64;
        let kept: u64 = (g_int >> shift) << shift;
        let bv: u64 = reverse_bits(kept);
        let gamma = Node::new(bv, difficulty);
        proof {
            assert forall|j: int| 0 <= j < 64 implies #[trigger] bit_at(bv, j) == (j < difficulty
                && bit_at(g_int, 63 - j)) by {
                let k = (63 - j) as u64;
                assert(bit((g_int >> shift) << shift, k) == (k >= shift && bit(g_int, k)))
                    by (bit_vector)
                    requires
                        k < 64,
                        shift < 64,
                ;
            }
            lemma_bits_fit(bv, difficulty as int);
            assert(gamma@ =~= challenge(puzzle@, difficulty as nat, index as nat));
        }
        gammas.push(gamma);
        index += 1;
    }
    gammas
}

/// The nodes beside the path from the root to `gamma`, top down.
pub fn gamma_to_path(gamma: Node) -> (path: Vec<Node>)
    requires
        gamma.wf(),
    ensures
        path@.len() == gamma.len,
        forall|i: int|
            0 <= i < gamma.len ==> (#[trigger] path@[i]).wf() && path@[i]@ == sibling(gamma@, i),
{
    let n = gamma.len;
    let mut path: Vec<Node> = Vec::new();
    let mut index: usize = 0;
    while index < n
        invariant
            gamma.wf(),
            n == gamma.len,
            index <= n,
            path@.len() == index,
            forall|i: int|
                0 <= i < index ==> (#[trigger] path@[i]).wf() && path@[i]@ == sibling(gamma@, i),
        decreases n - index,
    {
        let bit: u64 = gamma.get_bit(index);
        let other: usize = if bit == 1 { 0 } else { 1 };
        path.push(gamma.take(index).append(other));
        index += 1;
    }
    path
}

} // verus!
