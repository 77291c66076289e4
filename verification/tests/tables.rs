use melpow::label::Label;
use melpow::node::Node;
use melpow::table::LabelMap;

#[test]
fn new_map_is_empty() {
    let m = LabelMap::new();
    assert!(m.id_list().is_empty());
    assert!(!m.contains(Node::new_zero()));
    assert!(m.get(Node::new_zero()).is_none());
}

#[test]
fn insert_then_get() {
    let mut m = LabelMap::new();
    let a = Node::new(0b01, 2);
    let b = Node::new(0b01, 3);
    m.insert(a, Label::from_slice(b"first"));
    m.insert(b, Label::from_slice(b"second"));
    assert_eq!(m.get(a).unwrap().as_slice(), b"first");
    assert_eq!(m.get(b).unwrap().as_slice(), b"second");
    assert!(m.contains(a));
    assert!(!m.contains(Node::new(0b01, 4)));
    let mut ids = m.id_list();
    ids.sort();
    assert_eq!(ids, vec![a.uniqid(), b.uniqid()]);
    assert_eq!(m.get_by_id(a.uniqid()).unwrap().as_slice(), b"first");
    assert!(m.get_by_id(7).is_none());
}

#[test]
fn insert_replaces() {
    let mut m = LabelMap::new();
    let a = Node::new(1, 1);
    m.insert(a, Label::from_slice(b"old"));
    m.insert(a, Label::from_slice(b"new"));
    assert_eq!(m.get(a).unwrap().as_slice(), b"new");
    assert_eq!(m.id_list().len(), 1);
}

#[test]
fn remove_takes_one_key_out() {
    let mut m = LabelMap::new();
    let a = Node::new(1, 1);
    let b = Node::new(0, 1);
    m.insert(a, Label::from_slice(b"a"));
    m.insert(b, Label::from_slice(b"b"));
    m.remove(a);
    assert!(!m.contains(a));
    assert_eq!(m.get(b).unwrap().as_slice(), b"b");
    m.remove(a);
    assert_eq!(m.id_list(), vec![b.uniqid()]);
}

#[test]
fn clone_holds_the_same_labels() {
    let mut m = LabelMap::new();
    for i in 0..50u64 {
        m.insert(Node::new(i, 8), Label::from_slice(&i.to_le_bytes()));
    }
    let c = m.clone();
    m.remove(Node::new(3, 8));
    assert_eq!(c.id_list().len(), 50);
    for i in 0..50u64 {
        assert_eq!(c.get(Node::new(i, 8)).unwrap().as_slice(), &i.to_le_bytes());
    }
}
