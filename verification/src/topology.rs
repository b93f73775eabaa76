//! The adjacency mapping of the cluster: which nodes each node gossips to.

use vstd::prelude::*;

verus! {

/// The keys of a list of keyed entries, as sequences of characters.
pub open spec fn keys<V>(entries: Seq<(String, V)>) -> Seq<Seq<char>> {
    Seq::new(entries.len(), |i: int| entries[i].0@)
}

/// Finds the first entry whose key is `key`.
pub(crate) fn position<V>(entries: &Vec<(String, V)>, key: &String) -> (found: Option<usize>)
    ensures
        match found {
            Some(i) => {
                &&& i < entries.len()
                &&& keys(entries@)[i as int] == key@
                &&& forall|j: int| 0 <= j < i ==> keys(entries@)[j] != key@
            },
            None => !keys(entries@).contains(key@),
        },
{
    let mut i: usize = 0;
    while i < entries.len()
        invariant
            i <= entries.len(),
            forall|j: int| 0 <= j < i ==> keys(entries@)[j] != key@,
        decreases entries.len() - i,
    {
        if entries[i].0 == *key {
            return Some(i);
        }
        i += 1;
    }
    None
}

/// A mapping from node id to that node's ordered list of neighbours.
///
/// Every node id occurs at most once; inserting an id that is already
/// present replaces its neighbour list.
#[derive(Debug)]
pub struct Topology {
    entries: Vec<(String, Vec<String>)>,
}

impl View for Topology {
    type V = Map<Seq<char>, Seq<Seq<char>>>;

    closed spec fn view(&self) -> Map<Seq<char>, Seq<Seq<char>>> {
        let nodes = keys(self.entries@);
        Map::new(
            |k: Seq<char>| nodes.contains(k),
            |k: Seq<char>| self.entries@[nodes.index_of(k)].1.deep_view(),
        )
    }
}

impl Clone for Topology {
    fn clone(&self) -> (copy: Topology)
        ensures
            copy@ == self@,
            copy.order() == self.order(),
    {
        proof {
            use_type_invariant(self);
        }
        let mut entries: Vec<(String, Vec<String>)> = Vec::new();
        let mut i: usize = 0;
        while i < self.entries.len()
            invariant
                i <= self.entries.len(),
                entries.len() == i,
                forall|j: int|
                    0 <= j < i ==> (#[trigger] entries@[j]).0@ == self.entries@[j].0@
                        && entries@[j].1.deep_view() == self.entries@[j].1.deep_view(),
            decreases self.entries.len() - i,
        {
            let node = self.entries[i].0.clone();
            let neighbors = self.entries[i].1.clone();
            assert(neighbors.deep_view() =~= self.entries@[i as int].1.deep_view());
            entries.push((node, neighbors));
            i += 1;
        }
        assert(keys(entries@) =~= keys(self.entries@));
        let copy = Topology { entries };
        assert(copy@ =~= self@);
        copy
    }
}

impl Topology {
    #[verifier::type_invariant]
    spec fn well_formed(self) -> bool {
        keys(self.entries@).no_duplicates()
    }

    /// The node ids that have an entry, in the order in which they were first inserted.
    pub closed spec fn order(self) -> Seq<Seq<char>> {
        keys(self.entries@)
    }

    /// The ids listed by `order` are exactly the keys of the mapping.
    pub proof fn lemma_order(self)
        ensures
            self.order().to_set() == self@.dom(),
            self@.dom().finite(),
    {
        assert(self.order().to_set() =~= self@.dom());
    }

    /// The empty mapping.
    pub fn new() -> (topology: Topology)
        ensures
            topology@ == Map::<Seq<char>, Seq<Seq<char>>>::empty(),
            topology.order() == Seq::<Seq<char>>::empty(),
    {
        let topology = Topology { entries: Vec::new() };
        assert(topology@ =~= Map::<Seq<char>, Seq<Seq<char>>>::empty());
        assert(topology.order() =~= Seq::<Seq<char>>::empty());
        topology
    }

    /// Maps `node` to `neighbors`, replacing any earlier entry for `node`.
    pub fn insert(&mut self, node: String, neighbors: Vec<String>)
        ensures
            final(self)@ == old(self)@.insert(node@, neighbors.deep_view()),
            final(self).order() == if old(self)@.contains_key(node@) {
                old(self).order()
            } else {
                old(self).order().push(node@)
            },
    {
        proof {
            use_type_invariant(&*self);
        }
        let ghost before = *self;
        let ghost key = node@;
        let ghost value = neighbors.deep_view();
        let mut entries: Vec<(String, Vec<String>)> = Vec::new();
        core::mem::swap(&mut self.entries, &mut entries);
        match position(&entries, &node) {
            Some(i) => {
                entries[i].1 = neighbors;
                assert(keys(entries@) =~= keys(before.entries@));
            },
            None => {
                entries.push((node, neighbors));
                assert(keys(entries@) =~= keys(before.entries@).push(key));
            },
        }
        self.entries = entries;
        proof {
            let nodes = keys(self.entries@);
            let earlier = keys(before.entries@);
            assert forall|k: Seq<char>| nodes.contains(k) <==> (earlier.contains(k) || k == key) by {
                if earlier.contains(k) {
                    assert(nodes[earlier.index_of(k)] == k);
                }
                if k == key {
                    if earlier.contains(key) {
                        assert(nodes[earlier.index_of(k)] == k);
                    } else {
                        assert(nodes[nodes.len() - 1] == k);
                    }
                }
                if nodes.contains(k) && k != key {
                    assert(earlier[nodes.index_of(k)] == k);
                }
            }
            assert forall|k: Seq<char>| nodes.contains(k) implies self@[k] == before@.insert(
                key,
                value,
            )[k] by {
                if k != key {
                    assert(earlier[nodes.index_of(k)] == k);
                    assert(earlier.index_of(k) == nodes.index_of(k));
                }
            }
            assert(self@ =~= before@.insert(key, value));
        }
    }

    /// The neighbour list of `node`, if it has an entry.
    pub fn get(&self, node: &String) -> (found: Option<&Vec<String>>)
        ensures
            match found {
                Some(neighbors) => self@.contains_key(node@) && neighbors.deep_view()
                    == self@[node@],
                None => !self@.contains_key(node@),
            },
    {
        proof {
            use_type_invariant(self);
        }
        match position(&self.entries, node) {
            Some(i) => {
                assert(keys(self.entries@).index_of(node@) == i);
                Some(&self.entries[i].1)
            },
            None => None,
        }
    }

    /// The node ids that have an entry, each once, in the order in which
    /// they were first inserted.
    pub fn nodes(&self) -> (nodes: Vec<String>)
        ensures
            nodes.deep_view() == self.order(),
            nodes.deep_view().no_duplicates(),
            nodes.deep_view().to_set() == self@.dom(),
    {
        proof {
            use_type_invariant(self);
            self.lemma_order();
        }
        let mut nodes: Vec<String> = Vec::new();
        let mut i: usize = 0;
        while i < self.entries.len()
            invariant
                i <= self.entries.len(),
                nodes.len() == i,
                forall|j: int| 0 <= j < i ==> nodes@[j]@ == self.entries@[j].0@,
            decreases self.entries.len() - i,
        {
            nodes.push(self.entries[i].0.clone());
            i += 1;
        }
        assert(nodes.deep_view() =~= keys(self.entries@));
        nodes
    }
}

} // verus!
