use melpow::node::{u64_from_be, u64_to_be, Node, MAX_LEN};

fn bits(s: &str) -> Node {
    let mut nd = Node::new_zero();
    for c in s.chars() {
        nd = nd.append(if c == '1' { 1 } else { 0 });
    }
    nd
}

#[test]
fn root_is_empty() {
    let root = Node::new_zero();
    assert_eq!(root.bv, 0);
    assert_eq!(root.len, 0);
    assert_eq!(root, Node::new(0, 0));
    assert_eq!(root.uniqid(), 0);
    assert_eq!(root.to_string(), "\u{3b5}");
}

#[test]
fn new_keeps_its_arguments() {
    let nd = Node::new(5, 3);
    assert_eq!(nd.bv, 5);
    assert_eq!(nd.len, 3);
}

#[test]
fn take_keeps_the_low_bits() {
    let nd = Node::new(0b1011, 4);
    assert_eq!(nd.take(2), Node::new(0b11, 2));
    assert_eq!(nd.take(3), Node::new(0b011, 3));
    assert_eq!(nd.take(0), Node::new_zero());
    assert_eq!(nd.take(4), nd);
}

#[test]
fn append_sets_the_high_bit() {
    let nd = Node::new(0b01, 2);
    assert_eq!(nd.append(1), Node::new(0b101, 3));
    assert_eq!(nd.append(0), Node::new(0b001, 3));
    assert_eq!(Node::new_zero().append(1), Node::new(1, 1));
    assert_eq!(Node::new_zero().append(0), Node::new(0, 1));
}

#[test]
fn append_then_take_is_identity() {
    let nd = bits("0110100");
    assert_eq!(nd.append(1).take(nd.len), nd);
    assert_eq!(nd.append(0).take(nd.len), nd);
}

#[test]
fn get_bit_reads_one_position() {
    let nd = Node::new(0b1011, 4);
    assert_eq!(nd.get_bit(0), 1);
    assert_eq!(nd.get_bit(1), 1);
    assert_eq!(nd.get_bit(2), 0);
    assert_eq!(nd.get_bit(3), 1);
    assert_eq!(nd.get_bit(4), 0);
    assert_eq!(nd.get_bit(63), 0);
}

#[test]
fn uniqid_puts_length_above_bits() {
    assert_eq!(Node::new(5, 3).uniqid(), 0x0300_0000_0000_0005);
    assert_eq!(Node::new(0, 1).uniqid(), 0x0100_0000_0000_0000);
    let full = Node::new((1u64 << 56) - 1, 56);
    assert_eq!(full.uniqid(), 0x38ff_ffff_ffff_ffff);
}

#[test]
fn to_bytes_is_big_endian() {
    assert_eq!(Node::new(5, 3).to_bytes(), [3, 0, 0, 0, 0, 0, 0, 5]);
    assert_eq!(Node::new(0x0102, 16).to_bytes(), [16, 0, 0, 0, 0, 0, 1, 2]);
    assert_eq!(Node::new_zero().to_bytes(), [0u8; 8]);
}

#[test]
fn big_endian_helpers_agree_with_std() {
    for x in [0u64, 1, 0x0102_0304_0506_0708, u64::MAX, 0x8000_0000_0000_0000] {
        assert_eq!(u64_to_be(x), x.to_be_bytes());
        assert_eq!(u64_from_be(&x.to_be_bytes()), x);
    }
}

#[test]
fn node_codec_round_trips() {
    let mut nd = Node::new_zero();
    assert_eq!(Node::from_bytes(&nd.to_bytes()), Some(nd));
    for i in 0..MAX_LEN {
        nd = nd.append(if i % 3 == 0 { 1 } else { 0 });
        assert_eq!(Node::from_bytes(&nd.to_bytes()), Some(nd));
    }
    assert_eq!(nd.len, 56);
    let ones = Node::new((1u64 << 56) - 1, 56);
    assert_eq!(Node::from_bytes(&ones.to_bytes()), Some(ones));
}

#[test]
fn from_bytes_wants_eight_bytes() {
    assert_eq!(Node::from_bytes(&[]), None);
    assert_eq!(Node::from_bytes(&[0u8; 7]), None);
    assert_eq!(Node::from_bytes(&[0u8; 9]), None);
    assert_eq!(Node::from_bytes(&[0u8; 8]), Some(Node::new_zero()));
}

#[test]
fn from_bytes_refuses_what_is_no_node() {
    // 57 bits
    assert_eq!(Node::from_bytes(&[57, 0, 0, 0, 0, 0, 0, 0]), None);
    assert_eq!(Node::from_bytes(&[255, 0, 0, 0, 0, 0, 0, 0]), None);
    // a bit at position 1 of a one-bit node
    assert_eq!(Node::from_bytes(&[1, 0, 0, 0, 0, 0, 0, 2]), None);
    // a bit of a node without bits
    assert_eq!(Node::from_bytes(&[0, 0, 0, 0, 0, 0, 0, 1]), None);
    assert_eq!(Node::from_bytes(&[1, 0, 0, 0, 0, 0, 0, 1]), Some(Node::new(1, 1)));
    assert_eq!(Node::from_bytes(&[56, 0x80, 0, 0, 0, 0, 0, 0]), Some(Node::new(1u64 << 55, 56)));
}

#[test]
fn from_id_reads_length_and_bits() {
    assert_eq!(Node::from_id(0x0300_0000_0000_0005), Some(Node::new(5, 3)));
    assert_eq!(Node::from_id(0x0300_0000_0000_0008), None);
    assert_eq!(Node::from_id(0x3900_0000_0000_0000), None);
}

#[test]
fn inner_node_has_its_children_as_parents() {
    let nd = bits("10");
    let ps = nd.get_parents(4);
    assert_eq!(ps.len(), 2);
    assert_eq!(ps.get(0), nd.append(0));
    assert_eq!(ps.get(1), nd.append(1));
    assert_eq!(ps.as_slice(), &[bits("100"), bits("101")]);
    let root = Node::new_zero().get_parents(1);
    assert_eq!(root.as_slice(), &[bits("0"), bits("1")]);
}

#[test]
fn leaf_has_a_parent_for_each_set_bit() {
    let leaf = bits("101");
    assert_eq!(leaf.bv, 0b101);
    let ps = leaf.get_parents(3);
    assert_eq!(ps.as_slice(), &[bits("0"), bits("100")]);
    let none = bits("000").get_parents(3);
    assert_eq!(none.len(), 0);
    let all = bits("1111").get_parents(4);
    assert_eq!(all.as_slice(), &[bits("0"), bits("10"), bits("110"), bits("1110")]);
}

#[test]
fn leaf_parent_count_is_popcount() {
    let n = 6;
    for bv in 0u64..(1 << n) {
        let leaf = Node::new(bv, n);
        assert_eq!(leaf.get_parents(n).len(), bv.count_ones() as usize);
    }
}

#[test]
fn more_than_32_parents_fit() {
    let leaf = Node::new((1u64 << 40) - 1, 40);
    let ps = leaf.get_parents(40);
    assert_eq!(ps.len(), 40);
    for i in 0..40 {
        assert_eq!(ps.get(i), leaf.take(i).append(0));
    }
}

#[test]
fn root_of_depth_zero_is_a_leaf_without_parents() {
    assert_eq!(Node::new_zero().get_parents(0).len(), 0);
}

#[test]
fn text_shows_bits_root_first() {
    assert_eq!(bits("101").to_string(), "101");
    assert_eq!(Node::new(0b0011, 4).to_string(), "1100");
    assert_eq!(bits("0").to_string(), "0");
}
