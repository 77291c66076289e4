//! The byte form of a proof: one record of 40 bytes for each label, the
//! eight bytes of the node's identifier and then the 32 bytes of the label,
//! the records in increasing order of identifier.

use vstd::prelude::*;
use crate::node::{be_value, valid_id, lemma_be_bytes_of_value};
use crate::table::{bits_of_id, by_bits, valid_keys, lemma_bits_of_id, lemma_by_bits_size, lemma_id_of_bits};

verus! {

/// The length of a record: eight bytes of identifier and a label.
pub const UNIT_SIZE: usize = 40;

/// The identifier in record `i`.
pub open spec fn record_id(bytes: Seq<u8>, i: int) -> u64 {
    be_value(bytes.subrange(40 * i, 40 * i + 8))
}

/// The bit string of the node that record `i` names.
pub open spec fn record_node(bytes: Seq<u8>, i: int) -> Seq<bool> {
    bits_of_id(record_id(bytes, i))
}

/// The label in record `i`.
pub open spec fn record_label(bytes: Seq<u8>, i: int) -> Seq<u8> {
    bytes.subrange(40 * i + 8, 40 * i + 40)
}

/// What the first `k` records hold, a later record of a node taking the
/// place of an earlier one; nothing if one of them names no node.
pub open spec fn decode_records(bytes: Seq<u8>, k: nat) -> Option<Map<Seq<bool>, Seq<u8>>>
    decreases k,
{
    if k == 0 {
        Some(Map::empty())
    } else {
        match decode_records(bytes, (k - 1) as nat) {
            None => None,
            Some(m) => if valid_id(record_id(bytes, k - 1)) {
                Some(m.insert(record_node(bytes, k - 1), record_label(bytes, k - 1)))
            } else {
                None
            },
        }
    }
}

/// What a byte string holds as a proof: nothing unless it is a whole number
/// of records, each of which names a node.
pub open spec fn decode(bytes: Seq<u8>) -> Option<Map<Seq<bool>, Seq<u8>>> {
    if bytes.len() % 40 != 0 {
        None
    } else {
        decode_records(bytes, bytes.len() / 40)
    }
}

/// Once a record names no node, the records up to any later one hold
/// nothing.
pub proof fn lemma_decode_stops(bytes: Seq<u8>, k: nat, n: nat)
    requires
        k <= n,
        decode_records(bytes, k) is None,
    ensures
        decode_records(bytes, n) is None,
    decreases n - k,
{
    if k < n {
        lemma_decode_stops(bytes, k + 1, n);
    }
}

/// `bytes` is the byte form of `m`: one record for each label of `m`, in
/// strictly increasing order of identifier.
pub open spec fn encodes(bytes: Seq<u8>, m: Map<Seq<bool>, Seq<u8>>) -> bool {
    &&& bytes.len() == 40 * m.dom().len()
    &&& forall|i: int|
        0 <= i < m.dom().len() ==> valid_id(#[trigger] record_id(bytes, i)) && m.contains_key(
            record_node(bytes, i),
        ) && record_label(bytes, i) == m[record_node(bytes, i)]
    &&& forall|i: int, j: int|
        0 <= i < j < m.dom().len() ==> #[trigger] record_id(bytes, i) < #[trigger] record_id(bytes, j)
    &&& forall|s: Seq<bool>|
        m.contains_key(s) ==> exists|i: int| 0 <= i < m.dom().len() && #[trigger] record_node(bytes, i) == s
}

/// The identifiers in the first `n` records.
pub open spec fn record_ids(bytes: Seq<u8>, n: nat) -> Seq<u64> {
    Seq::new(n, |i: int| record_id(bytes, i))
}

/// Each item is less than the next.
pub open spec fn increasing(s: Seq<u64>) -> bool {
    forall|i: int, j: int| 0 <= i < j < s.len() ==> s[i] < s[j]
}

/// The items of `ids` in increasing order, each once.
pub fn sort_ids(ids: &Vec<u64>) -> (out: Vec<u64>)
    ensures
        increasing(out@),
        out@.to_set() == ids@.to_set(),
{
    let mut out: Vec<u64> = Vec::new();
    let mut i: usize = 0;
    while i < ids.len()
        invariant
            i <= ids@.len(),
            increasing(out@),
            out@.to_set() == ids@.take(i as int).to_set(),
        decreases ids@.len() - i,
    {
        let x = ids[i];
        let mut pos: usize = 0;
        while pos < out.len() && out[pos] < x
            invariant
                pos <= out@.len(),
                forall|k: int| 0 <= k < pos ==> out@[k] < x,
            decreases out@.len() - pos,
        {
            pos += 1;
        }
        let ghost before = out@;
        proof {
            assert(ids@.take(i + 1) =~= ids@.take(i as int).push(x));
            ids@.take(i as int).lemma_push_to_set_commute(x);
        }
        if pos < out.len() && out[pos] == x {
            assert(before.contains(x));
            assert(before.to_set().insert(x) =~= before.to_set());
        } else {
            out.insert(pos, x);
            proof {
                let after = out@;
                assert(after == before.insert(pos as int, x));
                assert forall|a: u64| after.contains(a) <==> (before.contains(a) || a == x) by {
                    if after.contains(a) {
                        let k = choose|k: int| 0 <= k < after.len() && after[k] == a;
                        if k < pos {
                            assert(before[k] == a);
                        } else if k > pos {
                            assert(before[k - 1] == a);
                        }
                    }
                    if before.contains(a) {
                        let k = choose|k: int| 0 <= k < before.len() && before[k] == a;
                        if k < pos {
                            assert(after[k] == a);
                        } else {
                            assert(after[k + 1] == a);
                        }
                    }
                    if a == x {
                        assert(after[pos as int] == a);
                    }
                }
                assert(after.to_set() =~= before.to_set().insert(x));
                assert forall|p: int, q: int| 0 <= p < q < after.len() implies after[p] < after[q] by {
                    let bp = if p < pos { p } else { p - 1 };
                    let bq = if q < pos { q } else { q - 1 };
                    if p != pos && q != pos {
                        assert(before[bp] < before[bq]);
                    } else if p == pos {
                        assert(after[q] == before[q - 1]);
                        assert(before[pos as int] <= before[q - 1]);
                    }
                }
            }
        }
        i += 1;
    }
    assert(ids@.take(i as int) =~= ids@);
    out
}

/// An increasing sequence holds no item twice.
pub proof fn lemma_increasing_distinct(s: Seq<u64>)
    requires
        increasing(s),
    ensures
        s.no_duplicates(),
{
    assert forall|i: int, j: int| 0 <= i < s.len() && 0 <= j < s.len() && i != j implies s[i] != s[j] by {
        if i < j {
            assert(s[i] < s[j]);
        } else {
            assert(s[j] < s[i]);
        }
    }
}

/// Two increasing sequences with the same items are the same sequence.
pub proof fn lemma_increasing_unique(a: Seq<u64>, b: Seq<u64>)
    requires
        increasing(a),
        increasing(b),
        forall|x: u64| a.contains(x) <==> b.contains(x),
    ensures
        a == b,
    decreases a.len(),
{
    if a.len() == 0 {
        if b.len() > 0 {
            assert(b.contains(b[0]));
        }
        assert(a =~= b);
    } else {
        assert(a.contains(a.last()));
        assert(b.contains(a.last()));
        assert(b.len() > 0);
        assert(b.contains(b.last()));
        assert(a.contains(b.last()));
        let i = choose|i: int| 0 <= i < a.len() && a[i] == b.last();
        let j = choose|j: int| 0 <= j < b.len() && b[j] == a.last();
        assert(a.last() == b.last()) by {
            if i < a.len() - 1 {
                assert(a[i] < a[a.len() - 1]);
            }
            if j < b.len() - 1 {
                assert(b[j] < b[b.len() - 1]);
            }
        }
        let a0 = a.drop_last();
        let b0 = b.drop_last();
        assert forall|x: u64| a0.contains(x) <==> b0.contains(x) by {
            if a0.contains(x) {
                let k = choose|k: int| 0 <= k < a0.len() && a0[k] == x;
                assert(a[k] == x && a[k] < a[a.len() - 1]);
                assert(a.contains(x));
                let l = choose|l: int| 0 <= l < b.len() && b[l] == x;
                assert(b0[l] == x);
            }
            if b0.contains(x) {
                let k = choose|k: int| 0 <= k < b0.len() && b0[k] == x;
                assert(b[k] == x && b[k] < b[b.len() - 1]);
                assert(b.contains(x));
                let l = choose|l: int| 0 <= l < a.len() && a[l] == x;
                assert(a0[l] == x);
            }
        }
        lemma_increasing_unique(a0, b0);
        assert(a =~= a0.push(a.last()));
        assert(b =~= b0.push(b.last()));
    }
}

/// Records written for the keys of a map in increasing order, each with the
/// label under its key, are the byte form of the map.
pub proof fn lemma_listing_encodes(bytes: Seq<u8>, ids: Seq<u64>, tab: Map<u64, Seq<u8>>)
    requires
        tab.dom().finite(),
        valid_keys(tab),
        increasing(ids),
        ids.to_set() == tab.dom(),
        bytes.len() == 40 * ids.len(),
        forall|k: int|
            0 <= k < ids.len() ==> #[trigger] record_id(bytes, k) == ids[k] && record_label(bytes, k)
                == tab[ids[k]],
    ensures
        encodes(bytes, by_bits(tab)),
{
    let m = by_bits(tab);
    lemma_by_bits_size(tab);
    lemma_increasing_distinct(ids);
    ids.unique_seq_to_set();
    assert forall|i: int| 0 <= i < m.dom().len() implies valid_id(#[trigger] record_id(bytes, i))
        && m.contains_key(record_node(bytes, i)) && record_label(bytes, i) == m[record_node(bytes, i)] by {
        assert(ids.contains(ids[i]));
        assert(tab.dom().contains(ids[i]));
        lemma_bits_of_id(ids[i]);
    }
    assert forall|s: Seq<bool>| m.contains_key(s) implies exists|i: int|
        0 <= i < m.dom().len() && #[trigger] record_node(bytes, i) == s by {
        lemma_id_of_bits(s);
        let id = crate::node::id_of(s);
        assert(ids.to_set().contains(id));
        let i = choose|i: int| 0 <= i < ids.len() && ids[i] == id;
        assert(record_node(bytes, i) == s);
    }
}

/// Decoding the byte form of a map gives the map.
pub proof fn lemma_decode_encoding(bytes: Seq<u8>, m: Map<Seq<bool>, Seq<u8>>)
    requires
        encodes(bytes, m),
    ensures
        decode(bytes) == Some(m),
{
    let n = m.dom().len();
    lemma_decode_prefix(bytes, m, n);
    let got = decode_records(bytes, n)->0;
    assert(got =~= m);
}

/// Decoding the first `k` records of the byte form of a map gives the
/// labels of the nodes that those records name.
pub proof fn lemma_decode_prefix(bytes: Seq<u8>, m: Map<Seq<bool>, Seq<u8>>, k: nat)
    requires
        encodes(bytes, m),
        k <= m.dom().len(),
    ensures
        decode_records(bytes, k) == Some(
            Map::new(
                |s: Seq<bool>| exists|i: int| 0 <= i < k && #[trigger] record_node(bytes, i) == s,
                |s: Seq<bool>| m[s],
            ),
        ),
    decreases k,
{
    let want = Map::new(
        |s: Seq<bool>| exists|i: int| 0 <= i < k && #[trigger] record_node(bytes, i) == s,
        |s: Seq<bool>| m[s],
    );
    if k == 0 {
        assert(want =~= Map::<Seq<bool>, Seq<u8>>::empty());
    } else {
        lemma_decode_prefix(bytes, m, (k - 1) as nat);
        let before = Map::new(
            |s: Seq<bool>| exists|i: int| 0 <= i < k - 1 && #[trigger] record_node(bytes, i) == s,
            |s: Seq<bool>| m[s],
        );
        assert(valid_id(record_id(bytes, k - 1)));
        let got = before.insert(record_node(bytes, k - 1), record_label(bytes, k - 1));
        assert forall|s: Seq<bool>|
            #![trigger got.contains_key(s)]
            #![trigger want.contains_key(s)]
            got.contains_key(s) == want.contains_key(s) && (want.contains_key(s) ==> got[s] == want[s]) by {
            if want.contains_key(s) {
                let i = choose|i: int| 0 <= i < k && #[trigger] record_node(bytes, i) == s;
                if i < k - 1 {
                    assert(before.contains_key(s));
                }
            }
            if got.contains_key(s) {
                if s == record_node(bytes, k - 1) {
                    assert(want.contains_key(s));
                } else {
                    let i = choose|i: int| 0 <= i < k - 1 && #[trigger] record_node(bytes, i) == s;
                    assert(0 <= i < k && record_node(bytes, i) == s);
                }
            }
        }
        assert(got =~= want);
    }
}

/// A map has one byte form only.
pub proof fn lemma_encoding_unique(b1: Seq<u8>, b2: Seq<u8>, m: Map<Seq<bool>, Seq<u8>>)
    requires
        encodes(b1, m),
        encodes(b2, m),
    ensures
        b1 == b2,
{
    let n = m.dom().len();
    let ids1 = record_ids(b1, n);
    let ids2 = record_ids(b2, n);
    lemma_same_ids(b1, b2, m);
    lemma_same_ids(b2, b1, m);
    assert(increasing(ids1)) by {
        assert forall|i: int, j: int| 0 <= i < j < ids1.len() implies ids1[i] < ids1[j] by {
            assert(record_id(b1, i) < record_id(b1, j));
        }
    }
    assert(increasing(ids2)) by {
        assert forall|i: int, j: int| 0 <= i < j < ids2.len() implies ids2[i] < ids2[j] by {
            assert(record_id(b2, i) < record_id(b2, j));
        }
    }
    lemma_increasing_unique(ids1, ids2);
    assert forall|p: int| 0 <= p < b1.len() implies b1[p] == b2[p] by {
        let i = p / 40;
        let r = p % 40;
        assert(0 <= i < n);
        assert(ids1[i] == ids2[i]);
        let id = record_id(b1, i);
        assert(record_id(b2, i) == id);
        let h1 = b1.subrange(40 * i, 40 * i + 8);
        let h2 = b2.subrange(40 * i, 40 * i + 8);
        lemma_be_bytes_of_value(h1);
        lemma_be_bytes_of_value(h2);
        assert(h1 == h2);
        if r < 8 {
            assert(b1[p] == h1[r]);
            assert(b2[p] == h2[r]);
        } else {
            assert(b1[p] == record_label(b1, i)[r - 8]);
            assert(b2[p] == record_label(b2, i)[r - 8]);
        }
    }
    assert(b1 =~= b2);
}

/// Every identifier in one byte form of a map is in every other.
pub proof fn lemma_same_ids(b1: Seq<u8>, b2: Seq<u8>, m: Map<Seq<bool>, Seq<u8>>)
    requires
        encodes(b1, m),
        encodes(b2, m),
    ensures
        forall|x: u64|
            record_ids(b1, m.dom().len()).contains(x) ==> #[trigger] record_ids(b2, m.dom().len()).contains(
                x,
            ),
{
    let n = m.dom().len();
    let ids1 = record_ids(b1, n);
    let ids2 = record_ids(b2, n);
    assert forall|x: u64| ids1.contains(x) implies ids2.contains(x) by {
        let i = choose|i: int| 0 <= i < ids1.len() && ids1[i] == x;
        assert(valid_id(record_id(b1, i)));
        let s = record_node(b1, i);
        assert(m.contains_key(s));
        let j = choose|j: int| 0 <= j < n && #[trigger] record_node(b2, j) == s;
        assert(valid_id(record_id(b2, j)));
        lemma_bits_of_id(record_id(b1, i));
        lemma_bits_of_id(record_id(b2, j));
        assert(ids2[j] == x);
    }
}

} // verus!
