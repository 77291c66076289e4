use melpow::codec::{sort_ids, UNIT_SIZE};
use melpow::node::Node;
use melpow::Proof;

fn records(bytes: &[u8]) -> Vec<(Node, Vec<u8>)> {
    assert_eq!(bytes.len() % 40, 0);
    bytes.chunks(40).map(|r| (Node::from_bytes(&r[0..8]).unwrap(), r[8..40].to_vec())).collect()
}

fn challenges_by_hand(puzzle: &[u8], difficulty: usize) -> Vec<Node> {
    (0..200)
        .map(|index| {
            let seed = tmelcrypt::hash_keyed(format!("gamma-{}", index).as_bytes(), puzzle);
            let mut first = [0u8; 8];
            first.copy_from_slice(&seed.0[0..8]);
            let raw = u64::from_le_bytes(first);
            let shift = 64 - difficulty;
            Node::new(((raw >> shift) << shift).reverse_bits(), difficulty)
        })
        .collect()
}

#[test]
fn generated_proof_verifies() {
    for puzzle in [&b""[..], b"a", b"themelio", &[0u8; 32], &[0xffu8; 100]] {
        for difficulty in [1usize, 2, 3, 5, 8, 11] {
            let proof = Proof::generate(puzzle, difficulty);
            assert!(proof.verify(puzzle, difficulty));
        }
    }
}

#[test]
fn other_difficulty_is_rejected() {
    let puzzle = b"difficulty";
    for made in [1usize, 4, 7] {
        let proof = Proof::generate(puzzle, made);
        for asked in 1..=10usize {
            assert_eq!(proof.verify(puzzle, asked), asked == made);
        }
    }
}

#[test]
fn other_puzzle_is_rejected() {
    let proof = Proof::generate(b"one puzzle", 6);
    assert!(proof.verify(b"one puzzle", 6));
    assert!(!proof.verify(b"another puzzle", 6));
    assert!(!proof.verify(b"one puzzl", 6));
    assert!(!proof.verify(b"", 6));
}

#[test]
fn difficulty_out_of_range_is_rejected() {
    let proof = Proof::generate(b"range", 3);
    assert!(!proof.verify(b"range", 0));
    assert!(!proof.verify(b"range", 57));
    assert!(!proof.verify(b"range", 64));
    assert!(!proof.verify(b"range", 100));
    assert!(!proof.verify(b"range", 101));
    assert!(!proof.verify(b"range", usize::MAX));
}

#[test]
fn bytes_round_trip() {
    for difficulty in [1usize, 5, 9] {
        let proof = Proof::generate(b"round trip", difficulty);
        let bytes = proof.to_bytes();
        let back = Proof::from_bytes(&bytes).unwrap();
        assert_eq!(back, proof);
        assert_eq!(back.to_bytes(), bytes);
        assert!(back.verify(b"round trip", difficulty));
    }
}

#[test]
fn round_trip_does_not_depend_on_record_order() {
    let proof = Proof::generate(b"order", 6);
    let bytes = proof.to_bytes();
    let mut reversed = Vec::new();
    for record in bytes.chunks(40).rev() {
        reversed.extend_from_slice(record);
    }
    assert_ne!(reversed, bytes);
    let back = Proof::from_bytes(&reversed).unwrap();
    assert_eq!(back, proof);
    assert_eq!(back.to_bytes(), bytes);
}

#[test]
fn generation_is_deterministic() {
    let a = Proof::generate(b"again", 7);
    let b = Proof::generate(b"again", 7);
    assert_eq!(a, b);
    assert_eq!(a.to_bytes(), b.to_bytes());
    assert_ne!(a, Proof::generate(b"again", 6));
    assert_ne!(a, Proof::generate(b"agaim", 7));
}

#[test]
fn proof_size_is_bounded() {
    for difficulty in [1usize, 2, 6, 10, 12] {
        let bytes = Proof::generate(b"size", difficulty).to_bytes();
        assert_eq!(bytes.len() % 40, 0);
        assert!(bytes.len() <= 40 * (1 + 200 * (difficulty + 1)));
        assert!(bytes.len() >= 40 * (1 + difficulty + 1));
    }
}

#[test]
fn records_are_sorted_by_identifier() {
    let bytes = Proof::generate(b"sorted", 9).to_bytes();
    let ids: Vec<u64> = records(&bytes).iter().map(|(nd, _)| nd.uniqid()).collect();
    for pair in ids.windows(2) {
        assert!(pair[0] < pair[1]);
    }
    assert_eq!(ids[0], 0);
}

#[test]
fn proof_holds_root_challenges_and_paths() {
    let puzzle = b"contents";
    let difficulty = 7;
    let bytes = Proof::generate(puzzle, difficulty).to_bytes();
    let mut want: Vec<u64> = vec![Node::new_zero().uniqid()];
    for gamma in challenges_by_hand(puzzle, difficulty) {
        want.push(gamma.uniqid());
        for i in 0..difficulty {
            want.push(gamma.take(i).append(1 - gamma.get_bit(i) as usize).uniqid());
        }
    }
    want.sort();
    want.dedup();
    let got: Vec<u64> = records(&bytes).iter().map(|(nd, _)| nd.uniqid()).collect();
    assert_eq!(got, want);
}

#[test]
fn scenario_empty_puzzle() {
    let puzzle: Vec<u8> = vec![];
    let proof = Proof::generate(&puzzle, 8);
    assert!(proof.verify(&puzzle, 8));
    assert!(!proof.verify(&puzzle, 9));
    assert!(!proof.verify(b"hello", 8));
    assert_eq!(Proof::from_bytes(&proof.to_bytes()).unwrap(), proof);
}

#[test]
fn scenario_depth_one() {
    let proof = Proof::generate(b"themelio", 1);
    let bytes = proof.to_bytes();
    let nodes: Vec<Node> = records(&bytes).iter().map(|(nd, _)| *nd).collect();
    assert_eq!(nodes, vec![Node::new_zero(), Node::new(0, 1), Node::new(1, 1)]);
    assert_eq!(bytes.len(), 120);
    assert!(proof.verify(b"themelio", 1));
}

#[test]
fn scenario_depth_sixteen() {
    let puzzle = [0u8; 32];
    let proof = Proof::generate(&puzzle, 16);
    assert!(proof.verify(&puzzle, 16));
    let again = Proof::generate(&puzzle, 16);
    let first = proof.to_bytes();
    assert_eq!(&first[0..8], &[0u8; 8]);
    assert_eq!(&first[0..40], &again.to_bytes()[0..40]);
}

#[test]
fn scenario_flipped_label_byte() {
    let puzzle = b"tamper";
    let bytes = Proof::generate(puzzle, 6).to_bytes();
    let count = bytes.len() / 40;
    for record in [0, 1, count / 2, count - 1] {
        for offset in [8usize, 20, 39] {
            let mut bad = bytes.clone();
            bad[40 * record + offset] ^= 1;
            let proof = Proof::from_bytes(&bad).unwrap();
            assert!(!proof.verify(puzzle, 6));
        }
    }
}

#[test]
fn scenario_deleted_entry() {
    let puzzle = b"delete";
    let difficulty = 6;
    let bytes = Proof::generate(puzzle, difficulty).to_bytes();
    let gamma = challenges_by_hand(puzzle, difficulty)[0];
    let mut on_path = vec![gamma.uniqid(), Node::new_zero().uniqid()];
    for i in 0..difficulty {
        on_path.push(gamma.take(i).append(1 - gamma.get_bit(i) as usize).uniqid());
    }
    for gone in on_path {
        let mut rest = Vec::new();
        for record in bytes.chunks(40) {
            if Node::from_bytes(&record[0..8]).unwrap().uniqid() != gone {
                rest.extend_from_slice(record);
            }
        }
        assert_eq!(rest.len(), bytes.len() - 40);
        let proof = Proof::from_bytes(&rest).unwrap();
        assert!(!proof.verify(puzzle, difficulty));
    }
}

#[test]
fn scenario_length_not_a_multiple_of_40() {
    assert!(Proof::from_bytes(&[0u8; 39]).is_none());
    assert!(Proof::from_bytes(&[0u8; 41]).is_none());
    assert!(Proof::from_bytes(&[0u8; 1]).is_none());
    let mut bytes = Proof::generate(b"cut", 3).to_bytes();
    bytes.pop();
    assert!(Proof::from_bytes(&bytes).is_none());
    bytes.push(0);
    bytes.push(0);
    assert!(Proof::from_bytes(&bytes).is_none());
}

#[test]
fn empty_bytes_are_an_empty_proof() {
    let proof = Proof::from_bytes(&[]).unwrap();
    assert!(proof.to_bytes().is_empty());
    assert!(!proof.verify(b"", 1));
}

#[test]
fn record_of_no_node_fails_the_decode() {
    let mut bytes = Proof::generate(b"node", 3).to_bytes();
    // the last record claims 57 bits
    let at = bytes.len() - 40;
    bytes[at] = 57;
    assert!(Proof::from_bytes(&bytes).is_none());
    // a bit beyond the length of the root
    let mut bytes = Proof::generate(b"node", 3).to_bytes();
    bytes[7] = 1;
    assert!(Proof::from_bytes(&bytes).is_none());
}

#[test]
fn later_record_of_a_node_wins() {
    let mut bytes = Vec::new();
    bytes.extend_from_slice(&Node::new(1, 1).to_bytes());
    bytes.extend_from_slice(&[1u8; 32]);
    bytes.extend_from_slice(&Node::new(1, 1).to_bytes());
    bytes.extend_from_slice(&[2u8; 32]);
    let proof = Proof::from_bytes(&bytes).unwrap();
    let mut want = Vec::new();
    want.extend_from_slice(&Node::new(1, 1).to_bytes());
    want.extend_from_slice(&[2u8; 32]);
    assert_eq!(proof.to_bytes(), want);
}

#[test]
fn proofs_compare_by_content() {
    let a = Proof::generate(b"eq", 4);
    let bytes = a.to_bytes();
    let mut changed = bytes.clone();
    changed[39] ^= 0x80;
    assert_ne!(Proof::from_bytes(&changed).unwrap(), a);
    let shorter = Proof::from_bytes(&bytes[40..]).unwrap();
    assert_ne!(shorter, a);
    assert_ne!(a, shorter);
    assert_eq!(a.clone(), a);
    assert_eq!(a.clone().to_bytes(), bytes);
}

#[test]
fn proof_without_root_is_rejected() {
    let bytes = Proof::generate(b"rootless", 4).to_bytes();
    let proof = Proof::from_bytes(&bytes[40..]).unwrap();
    assert!(!proof.verify(b"rootless", 4));
}

#[test]
fn unit_size_is_forty() {
    assert_eq!(UNIT_SIZE, 40);
}

#[test]
fn sort_ids_orders_and_drops_repeats() {
    assert_eq!(sort_ids(&vec![5, 1, 4, 1, 9, 0, 5]), vec![0, 1, 4, 5, 9]);
    assert_eq!(sort_ids(&vec![]), Vec::<u64>::new());
    assert_eq!(sort_ids(&vec![u64::MAX, 0]), vec![0, u64::MAX]);
}
