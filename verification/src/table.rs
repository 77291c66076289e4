//! The map from nodes to labels, kept in a `rustc_hash::FxHashMap`.
//!
//! The hash map is keyed by the 64-bit identifiers of the nodes. Its model
//! is a map from bit strings to byte strings.

use vstd::prelude::*;
use vstd::set_lib::lemma_map_size;
use std::hash::BuildHasherDefault;
use rustc_hash::{FxHashMap, FxHasher};
use crate::label::Label;
use crate::node::{
    Node, MAX_LEN, id_of, node_of_id, valid_id, lemma_id_injective, lemma_node_names_id,
    lemma_view_node_of, lemma_node_of_view, lemma_id_names_node,
};

verus! {

/// The hasher of `rustc_hash`.
#[verifier::external_type_specification]
#[verifier::external_body]
pub struct ExFxHasher(FxHasher);

/// The builder that makes a hasher by `Default`.
#[verifier::external_type_specification]
#[verifier::external_body]
#[verifier::reject_recursive_types(H)]
pub struct ExBuildHasherDefault<H>(BuildHasherDefault<H>);

/// What a hash map holds: for each key the bytes of its label.
pub uninterp spec fn table_entries(m: FxHashMap<u64, Label>) -> Map<u64, Seq<u8>>;

/// The map without keys.
pub open spec fn no_entries() -> Map<u64, Seq<u8>> {
    Map::empty()
}

/// `FxHashMap::default`: the new map is empty.
#[verifier::external_body]
fn table_new() -> (m: FxHashMap<u64, Label>)
    ensures
        table_entries(m) == no_entries(),
{
    FxHashMap::default()
}

/// `HashMap::insert`: the key is bound to the label, whatever it was bound
/// to before; nothing else changes.
#[verifier::external_body]
fn table_insert(m: &mut FxHashMap<u64, Label>, id: u64, lab: Label)
    ensures
        table_entries(*final(m)) == table_entries(*old(m)).insert(id, lab@),
{
    m.insert(id, lab);
}

/// `HashMap::get`: the label bound to the key, if the key is in the map.
#[verifier::external_body]
fn table_get(m: &FxHashMap<u64, Label>, id: u64) -> (r: Option<&Label>)
    ensures
        match r {
            Some(l) => table_entries(*m).contains_key(id) && l@ == table_entries(*m)[id],
            None => !table_entries(*m).contains_key(id),
        },
{
    m.get(&id)
}

/// `HashMap::remove`: the key leaves the map; nothing else changes.
#[verifier::external_body]
fn table_remove(m: &mut FxHashMap<u64, Label>, id: u64)
    ensures
        table_entries(*final(m)) == table_entries(*old(m)).remove(id),
{
    m.remove(&id);
}

/// `HashMap::keys`: every key of the map once, in an order that the map
/// chooses.
#[verifier::external_body]
fn table_ids(m: &FxHashMap<u64, Label>) -> (ids: Vec<u64>)
    ensures
        ids@.no_duplicates(),
        ids@.to_set() == table_entries(*m).dom(),
{
    m.keys().copied().collect()
}

/// The bit string of the node that an identifier names.
pub open spec fn bits_of_id(id: u64) -> Seq<bool> {
    node_of_id(id)@
}

/// The bit string of a valid identifier has that identifier.
pub proof fn lemma_bits_of_id(id: u64)
    requires
        valid_id(id),
    ensures
        bits_of_id(id).len() <= MAX_LEN,
        id_of(bits_of_id(id)) == id,
{
    lemma_view_node_of(node_of_id(id));
    lemma_node_names_id(id);
}

/// The identifier of a bit string is valid and names the bit string.
pub proof fn lemma_id_of_bits(s: Seq<bool>)
    requires
        s.len() <= MAX_LEN,
    ensures
        valid_id(id_of(s)),
        bits_of_id(id_of(s)) == s,
{
    lemma_node_of_view(s);
    lemma_id_names_node(crate::node::node_of(s));
}

/// A finite map from nodes to labels.
#[derive(Debug)]
pub struct LabelMap {
    raw: FxHashMap<u64, Label>,
}

impl View for LabelMap {
    type V = Map<Seq<bool>, Seq<u8>>;

    /// The label of each bit string whose identifier is a key.
    open spec fn view(&self) -> Map<Seq<bool>, Seq<u8>> {
        by_bits(self.ids())
    }
}

/// A map keyed by identifiers as a map keyed by bit strings.
pub open spec fn by_bits(tab: Map<u64, Seq<u8>>) -> Map<Seq<bool>, Seq<u8>> {
    Map::new(
        |s: Seq<bool>| s.len() <= MAX_LEN && tab.contains_key(id_of(s)),
        |s: Seq<bool>| tab[id_of(s)],
    )
}

/// The keys of a map are all valid identifiers.
pub open spec fn valid_keys(tab: Map<u64, Seq<u8>>) -> bool {
    forall|id: u64| tab.contains_key(id) ==> valid_id(id)
}

/// A finite map keyed by valid identifiers has as many bit strings as keys.
pub proof fn lemma_by_bits_size(tab: Map<u64, Seq<u8>>)
    requires
        tab.dom().finite(),
        valid_keys(tab),
    ensures
        by_bits(tab).dom().finite(),
        by_bits(tab).dom().len() == tab.dom().len(),
{
    let f = |id: u64| bits_of_id(id);
    let x = tab.dom();
    let y = by_bits(tab).dom();
    assert forall|a: u64, b: u64| x.contains(a) && x.contains(b) && #[trigger] f(a) == #[trigger] f(b)
        implies a == b by {
        lemma_bits_of_id(a);
        lemma_bits_of_id(b);
    }
    assert forall|s: Seq<bool>| x.map(f).contains(s) <==> y.contains(s) by {
        if x.map(f).contains(s) {
            let id = choose|id: u64| x.contains(id) && f(id) == s;
            lemma_bits_of_id(id);
        }
        if y.contains(s) {
            lemma_id_of_bits(s);
            assert(x.contains(id_of(s)) && f(id_of(s)) == s);
        }
    }
    assert(x.map(f) =~= y);
    lemma_map_size(x, y, f);
}

impl LabelMap {
    /// The labels by the identifiers of their nodes.
    pub closed spec fn ids(&self) -> Map<u64, Seq<u8>> {
        table_entries(self.raw)
    }

    /// There are finitely many keys, each the identifier of a well-formed
    /// node.
    pub open spec fn wf(&self) -> bool {
        &&& self.ids().dom().finite()
        &&& valid_keys(self.ids())
    }

    /// An empty map.
    pub fn new() -> (m: LabelMap)
        ensures
            m.wf(),
            m.ids() == Map::<u64, Seq<u8>>::empty(),
            m@ == Map::<Seq<bool>, Seq<u8>>::empty(),
    {
        let m = LabelMap { raw: table_new() };
        assert(m@ =~= Map::<Seq<bool>, Seq<u8>>::empty());
        m
    }

    /// Binds `nd` to `lab`, in place of the label that it had, if any.
    pub fn insert(&mut self, nd: Node, lab: Label)
        requires
            old(self).wf(),
            nd.wf(),
        ensures
            final(self).wf(),
            final(self).ids() == old(self).ids().insert(id_of(nd@), lab@),
            final(self)@ == old(self)@.insert(nd@, lab@),
    {
        let id = nd.uniqid();
        proof {
            lemma_id_names_node(nd);
            lemma_view_node_of(nd);
        }
        table_insert(&mut self.raw, id, lab);
        proof {
            assert forall|s: Seq<bool>| s.len() <= MAX_LEN && id_of(s) == id implies s == nd@ by {
                lemma_id_injective(s, nd@);
            }
            assert(self@ =~= old(self)@.insert(nd@, lab@));
        }
    }

    /// The label of `nd`, if it has one.
    pub fn get(&self, nd: Node) -> (r: Option<&Label>)
        requires
            nd.wf(),
        ensures
            match r {
                Some(l) => self@.contains_key(nd@) && l@ == self@[nd@],
                None => !self@.contains_key(nd@),
            },
    {
        proof {
            lemma_view_node_of(nd);
        }
        table_get(&self.raw, nd.uniqid())
    }

    /// Whether `nd` has a label.
    pub fn contains(&self, nd: Node) -> (b: bool)
        requires
            nd.wf(),
        ensures
            b == self@.contains_key(nd@),
    {
        self.get(nd).is_some()
    }

    /// Takes the label of `nd` out of the map.
    pub fn remove(&mut self, nd: Node)
        requires
            old(self).wf(),
            nd.wf(),
        ensures
            final(self).wf(),
            final(self).ids() == old(self).ids().remove(id_of(nd@)),
            final(self)@ == old(self)@.remove(nd@),
    {
        let id = nd.uniqid();
        proof {
            lemma_view_node_of(nd);
        }
        table_remove(&mut self.raw, id);
        proof {
            assert forall|s: Seq<bool>| s.len() <= MAX_LEN && id_of(s) == id implies s == nd@ by {
                lemma_id_injective(s, nd@);
            }
            assert(self@ =~= old(self)@.remove(nd@));
        }
    }

    /// The identifiers of the labelled nodes, each once, in no particular
    /// order.
    pub fn id_list(&self) -> (ids: Vec<u64>)
        ensures
            ids@.no_duplicates(),
            ids@.to_set() == self.ids().dom(),
    {
        table_ids(&self.raw)
    }

    /// The label under an identifier, if there is one.
    pub fn get_by_id(&self, id: u64) -> (r: Option<&Label>)
        ensures
            match r {
                Some(l) => self.ids().contains_key(id) && l@ == self.ids()[id],
                None => !self.ids().contains_key(id),
            },
    {
        table_get(&self.raw, id)
    }

    /// The bit strings with a label are as many as the identifiers.
    pub proof fn lemma_same_size(&self)
        requires
            self.wf(),
        ensures
            self@.dom().finite(),
            self@.dom().len() == self.ids().dom().len(),
    {
        lemma_by_bits_size(self.ids());
    }
}

impl Clone for LabelMap {
    /// A map with the same labels under the same identifiers.
    fn clone(&self) -> (c: LabelMap)
        ensures
            c.ids() == self.ids(),
            c@ == self@,
    {
        let ids = self.id_list();
        let mut raw = table_new();
        let mut i: usize = 0;
        while i < ids.len()
            invariant
                i <= ids@.len(),
                ids@.to_set() == self.ids().dom(),
                table_entries(raw).dom() == ids@.take(i as int).to_set(),
                forall|id: u64|
                    table_entries(raw).contains_key(id) ==> table_entries(raw)[id] == self.ids()[id],
            decreases ids@.len() - i,
        {
            let id = ids[i];
            assert(ids@.to_set().contains(id));
            let lab = self.get_by_id(id).unwrap().clone();
            table_insert(&mut raw, id, lab);
            proof {
                assert(ids@.take(i + 1) =~= ids@.take(i as int).push(id));
                ids@.take(i as int).lemma_push_to_set_commute(id);
                assert(table_entries(raw).dom() =~= ids@.take(i + 1).to_set());
            }
            i += 1;
        }
        let c = LabelMap { raw };
        proof {
            assert(ids@.take(i as int) =~= ids@);
            assert(c.ids() =~= self.ids());
        }
        c
    }
}

} // verus!
