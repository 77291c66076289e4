use melpow::hash::Accumulator;
use melpow::label::Label;
use melpow::labeler::{calc_labels, LabelSink};
use melpow::node::Node;
use melpow::table::LabelMap;

fn label_of(chi: &[u8], nd: Node, parents: &[&Label]) -> Label {
    let mut acc = Accumulator::new(chi);
    acc.add(&nd.to_bytes());
    for p in parents {
        acc.add(p.as_slice());
    }
    acc.hash()
}

fn run(chi: &[u8], n: usize, keys: LabelMap) -> LabelMap {
    let mut sink = LabelSink::new(keys);
    calc_labels(chi, n, &mut sink);
    sink.into_map()
}

fn all_nodes(n: usize) -> Vec<Node> {
    let mut out = vec![Node::new_zero()];
    let mut i = 0;
    while i < out.len() {
        let nd = out[i];
        if nd.len < n {
            out.push(nd.append(0));
            out.push(nd.append(1));
        }
        i += 1;
    }
    out
}

#[test]
fn labels_of_depth_one() {
    let chi = [3u8; 32];
    let zero = Node::new(0, 1);
    let one = Node::new(1, 1);
    let mut sink = LabelMap::new();
    sink.insert(zero, Label::empty());
    sink.insert(one, Label::empty());
    let sink = run(&chi, 1, sink);
    let l0 = label_of(&chi, zero, &[]);
    let l1 = label_of(&chi, one, &[&l0]);
    let root = label_of(&chi, Node::new_zero(), &[&l0, &l1]);
    assert!(sink.get(zero).unwrap().same(&l0));
    assert!(sink.get(one).unwrap().same(&l1));
    assert!(sink.get(Node::new_zero()).unwrap().same(&root));
    assert_eq!(sink.id_list().len(), 3);
}

#[test]
fn labels_of_depth_two() {
    let chi = b"some key";
    let mut sink = LabelMap::new();
    for nd in all_nodes(2) {
        sink.insert(nd, Label::empty());
    }
    let sink = run(chi, 2, sink);
    let n0 = Node::new(0, 1);
    let n1 = Node::new(1, 1);
    let n00 = Node::new(0b00, 2);
    let n01 = Node::new(0b10, 2);
    let n10 = Node::new(0b01, 2);
    let n11 = Node::new(0b11, 2);
    let l00 = label_of(chi, n00, &[]);
    let l01 = label_of(chi, n01, &[&l00]);
    let l0 = label_of(chi, n0, &[&l00, &l01]);
    let l10 = label_of(chi, n10, &[&l0]);
    let l11 = label_of(chi, n11, &[&l0, &l10]);
    let l1 = label_of(chi, n1, &[&l10, &l11]);
    let root = label_of(chi, Node::new_zero(), &[&l0, &l1]);
    assert!(sink.get(n00).unwrap().same(&l00));
    assert!(sink.get(n01).unwrap().same(&l01));
    assert!(sink.get(n10).unwrap().same(&l10));
    assert!(sink.get(n11).unwrap().same(&l11));
    assert!(sink.get(n0).unwrap().same(&l0));
    assert!(sink.get(n1).unwrap().same(&l1));
    assert!(sink.get(Node::new_zero()).unwrap().same(&root));
}

#[test]
fn every_label_hashes_its_parents() {
    let chi = [9u8; 32];
    let n = 5;
    let mut sink = LabelMap::new();
    for nd in all_nodes(n) {
        sink.insert(nd, Label::empty());
    }
    let sink = run(&chi, n, sink);
    assert_eq!(sink.id_list().len(), (1 << (n + 1)) - 1);
    for nd in all_nodes(n) {
        let parents = nd.get_parents(n);
        let labels: Vec<&Label> = parents.as_slice().iter().map(|p| sink.get(*p).unwrap()).collect();
        let want = label_of(&chi, nd, &labels);
        assert!(sink.get(nd).unwrap().same(&want));
        assert_eq!(sink.get(nd).unwrap().len(), 32);
    }
}

#[test]
fn sink_keeps_its_keys_and_the_root_only() {
    let chi = [1u8; 32];
    let kept = Node::new(0b110, 3);
    let mut sink = LabelMap::new();
    sink.insert(kept, Label::empty());
    let sink = run(&chi, 3, sink);
    assert_eq!(sink.id_list().len(), 2);
    assert!(sink.contains(kept));
    assert!(sink.contains(Node::new_zero()));
    assert!(!sink.contains(Node::new(0, 1)));
    assert_eq!(sink.get(kept).unwrap().len(), 32);

    let mut full = LabelMap::new();
    for nd in all_nodes(3) {
        full.insert(nd, Label::empty());
    }
    let full = run(&chi, 3, full);
    assert!(sink.get(kept).unwrap().same(full.get(kept).unwrap()));
    assert!(sink.get(Node::new_zero()).unwrap().same(full.get(Node::new_zero()).unwrap()));
}

#[test]
fn deeper_keys_are_left_alone() {
    let chi = [1u8; 32];
    let deep = Node::new(0, 4);
    let mut sink = LabelMap::new();
    sink.insert(deep, Label::from_slice(b"as it was"));
    let sink = run(&chi, 2, sink);
    assert_eq!(sink.get(deep).unwrap().as_slice(), b"as it was");
}

#[test]
fn depth_zero_has_one_label() {
    let chi = [1u8; 32];
    let mut sink = LabelMap::new();
    let sink = run(&chi, 0, sink);
    assert_eq!(sink.id_list().len(), 1);
    let want = label_of(&chi, Node::new_zero(), &[]);
    assert!(sink.get(Node::new_zero()).unwrap().same(&want));
}

#[test]
fn labels_depend_on_the_key() {
    let mut a = LabelMap::new();
    let mut b = LabelMap::new();
    let a = run(&[1u8; 32], 3, a);
    let b = run(&[2u8; 32], 3, b);
    assert!(!a.get(Node::new_zero()).unwrap().same(b.get(Node::new_zero()).unwrap()));
}

#[test]
fn sink_keeps_what_it_is_offered_for_its_keys() {
    let mut keys = LabelMap::new();
    keys.insert(Node::new(1, 1), Label::empty());
    let mut sink = LabelSink::new(keys);
    sink.offer(Node::new(1, 1), &Label::from_slice(b"kept"));
    sink.offer(Node::new(0, 1), &Label::from_slice(b"dropped"));
    sink.offer(Node::new_zero(), &Label::from_slice(b"root"));
    let map = sink.into_map();
    assert_eq!(map.get(Node::new(1, 1)).unwrap().as_slice(), b"kept");
    assert!(map.get(Node::new(0, 1)).is_none());
    assert_eq!(map.get(Node::new_zero()).unwrap().as_slice(), b"root");
}
