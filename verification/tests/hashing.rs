use melpow::hash::{append_bytes, bts_key, Accumulator};
use melpow::label::{bytes_equal, Label};

#[test]
fn keyed_hash_is_that_of_tmelcrypt() {
    let got = bts_key(b"message", b"key");
    let want = tmelcrypt::hash_keyed(b"key", b"message");
    assert_eq!(got.as_slice(), &want.0[..]);
    assert_eq!(got.len(), 32);
    assert_ne!(got.as_slice(), b"message");
    assert_ne!(got.as_slice(), b"key");
}

#[test]
fn keyed_hash_tells_key_from_message() {
    let a = bts_key(b"one", b"two");
    let b = bts_key(b"two", b"one");
    assert!(!a.same(&b));
    assert!(a.same(&bts_key(b"one", b"two")));
}

#[test]
fn accumulator_frames_each_chunk() {
    let mut acc = Accumulator::new(b"k");
    acc.add(b"ab");
    acc.add(b"c");
    let mut framed = Vec::new();
    framed.extend_from_slice(&2u64.to_le_bytes());
    framed.extend_from_slice(b"ab");
    framed.extend_from_slice(&1u64.to_le_bytes());
    framed.extend_from_slice(b"c");
    let want = tmelcrypt::hash_keyed(b"k", &framed);
    assert_eq!(acc.hash().as_slice(), &want.0[..]);
}

#[test]
fn accumulator_without_chunks_hashes_nothing() {
    let acc = Accumulator::new(b"k");
    let want = tmelcrypt::hash_keyed(b"k", b"");
    assert_eq!(acc.hash().as_slice(), &want.0[..]);
}

#[test]
fn accumulator_tells_chunk_boundaries() {
    let mut split = Accumulator::new(b"k");
    split.add(b"ab");
    split.add(b"c");
    let mut whole = Accumulator::new(b"k");
    whole.add(b"abc");
    assert!(!split.hash().same(&whole.hash()));
}

#[test]
fn accumulator_hash_can_be_repeated() {
    let mut acc = Accumulator::new(&[7u8; 32]);
    acc.add(b"chunk");
    let first = acc.hash();
    let second = acc.hash();
    assert!(first.same(&second));
    acc.add(b"");
    assert!(!acc.hash().same(&first));
}

#[test]
fn label_holds_what_it_was_given() {
    let l = Label::from_slice(&[1, 2, 3]);
    assert_eq!(l.as_slice(), &[1, 2, 3]);
    assert_eq!(l.len(), 3);
    let long = Label::from_slice(&[9u8; 40]);
    assert_eq!(long.len(), 40);
    assert_eq!(long.as_slice(), &[9u8; 40]);
    assert_eq!(Label::empty().len(), 0);
}

#[test]
fn label_clone_and_same() {
    let l = Label::from_slice(&[5u8; 32]);
    let c = l.clone();
    assert!(l.same(&c));
    assert_eq!(c.as_slice(), &[5u8; 32]);
    assert!(!l.same(&Label::from_slice(&[5u8; 31])));
    assert!(!l.same(&Label::from_slice(&[4u8; 32])));
}

#[test]
fn bytes_equal_compares_contents() {
    assert!(bytes_equal(b"", b""));
    assert!(bytes_equal(b"abc", b"abc"));
    assert!(!bytes_equal(b"abc", b"abd"));
    assert!(!bytes_equal(b"abc", b"ab"));
}

#[test]
fn append_bytes_extends() {
    let mut v = vec![1u8, 2];
    append_bytes(&mut v, &[3, 4, 5]);
    assert_eq!(v, vec![1, 2, 3, 4, 5]);
    append_bytes(&mut v, &[]);
    assert_eq!(v.len(), 5);
}

#[test]
fn accumulator_chains() {
    let mut one = Accumulator::new(b"k");
    one.add(b"a");
    one.add(b"bc");
    let chained = Accumulator::new(b"k").add(b"a").add(b"bc").hash();
    assert!(chained.same(&one.hash()));
}
