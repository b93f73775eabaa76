//! Per-neighbour record of the broadcast values a neighbour is known to possess.

use crate::topology::{keys, position};
use std::collections::HashSet;
use vstd::prelude::*;
use vstd::std_specs::hash::spec_hash_keys_iter;
use vstd::std_specs::iter::IteratorSpec;

verus! {

/// `list` names every member of `set` exactly once, and nothing else.
pub open spec fn lists(list: Seq<i32>, set: Set<i32>) -> bool {
    list.no_duplicates() && list.to_set() == set
}

/// `value` is among the first `n` of `items`.
spec fn among(items: Seq<&i32>, n: int, value: i32) -> bool {
    exists|j: int| 0 <= j < n && *items[j] == value
}

/// The members of `have`, each once, that are not members of `known`.
pub fn missing(have: &HashSet<i32>, known: &HashSet<i32>) -> (list: Vec<i32>)
    ensures
        lists(list@, have@.difference(known@)),
{
    broadcast use vstd::std_specs::hash::group_hash_axioms;

    let mut list: Vec<i32> = Vec::new();
    for value in it: have.iter()
        invariant
            it.seq() == spec_hash_keys_iter(have).remaining(),
            it.seq().no_duplicates(),
            list@.no_duplicates(),
            forall|k: int| 0 <= k < list@.len() ==> !known@.contains(#[trigger] list@[k]),
            forall|k: int| 0 <= k < list@.len() ==> among(it.seq(), it.index(), #[trigger] list@[k]),
            forall|j: int|
                0 <= j < it.index() && !known@.contains(*#[trigger] it.seq()[j])
                    ==> list@.contains(*it.seq()[j]),
    {
        let ghost before = list@;
        if !known.contains(value) {
            proof {
                assert forall|k: int| 0 <= k < list@.len() implies list@[k] != *value by {
                    assert(among(it.seq(), it.index(), list@[k]));
                    let j = choose|j: int| 0 <= j < it.index() && *it.seq()[j] == list@[k];
                    assert(it.seq()[j] != it.seq()[it.index()]);
                }
            }
            list.push(*value);
        }
        proof {
            assert forall|k: int| 0 <= k < list@.len() implies among(
                it.seq(),
                it.index() + 1,
                #[trigger] list@[k],
            ) by {
                if k < before.len() {
                    assert(among(it.seq(), it.index(), before[k]));
                    let j = choose|j: int| 0 <= j < it.index() && *it.seq()[j] == before[k];
                    assert(0 <= j < it.index() + 1 && *it.seq()[j] == list@[k]);
                } else {
                    assert(0 <= it.index() < it.index() + 1 && *it.seq()[it.index()]
                        == list@[k]);
                }
            }
            assert forall|j: int|
                0 <= j < it.index() + 1 && !known@.contains(
                    *#[trigger] it.seq()[j],
                ) implies list@.contains(*it.seq()[j]) by {
                if j < it.index() {
                    let k = before.index_of(*it.seq()[j]);
                    assert(list@[k] == *it.seq()[j]);
                } else {
                    assert(list@[list@.len() - 1] == *it.seq()[j]);
                }
            }
        }
    }
    proof {
        let all = spec_hash_keys_iter(have).remaining();
        assert(all.unref().to_set() == have@);
        assert forall|v: i32| list@.to_set().contains(v) <==> have@.difference(
            known@,
        ).contains(v) by {
            if list@.to_set().contains(v) {
                let k = list@.index_of(v);
                assert(among(all, all.len() as int, list@[k]));
                let j = choose|j: int| 0 <= j < all.len() && *all[j] == list@[k];
                assert(all.unref()[j] == v);
                assert(all.unref().to_set().contains(v));
            }
            if have@.difference(known@).contains(v) {
                assert(all.unref().to_set().contains(v));
                let j = all.unref().index_of(v);
                assert(*all[j] == v);
                assert(list@.contains(*all[j]));
            }
        }
        assert(list@.to_set() =~= have@.difference(known@));
    }
    list
}

/// For each peer of this node, the set of broadcast values that peer is
/// known to possess already.
///
/// Every peer occurs at most once.
#[derive(Debug)]
pub struct KnownIds {
    entries: Vec<(String, HashSet<i32>)>,
}

impl View for KnownIds {
    type V = Map<Seq<char>, Set<i32>>;

    closed spec fn view(&self) -> Map<Seq<char>, Set<i32>> {
        let peers = keys(self.entries@);
        Map::new(
            |k: Seq<char>| peers.contains(k),
            |k: Seq<char>| self.entries@[peers.index_of(k)].1@,
        )
    }
}

impl KnownIds {
    #[verifier::type_invariant]
    spec fn well_formed(self) -> bool {
        keys(self.entries@).no_duplicates()
    }

    /// A table without any peer.
    pub fn new() -> (table: KnownIds)
        ensures
            table@ == Map::<Seq<char>, Set<i32>>::empty(),
    {
        let table = KnownIds { entries: Vec::new() };
        assert(table@ =~= Map::<Seq<char>, Set<i32>>::empty());
        table
    }

    /// A fresh table holding one empty set for each of `peers` other than `except`.
    pub fn seeded(peers: &Vec<String>, except: &String) -> (table: KnownIds)
        ensures
            table@ == Map::new(
                |k: Seq<char>| peers.deep_view().contains(k) && k != except@,
                |k: Seq<char>| Set::<i32>::empty(),
            ),
    {
        let mut entries: Vec<(String, HashSet<i32>)> = Vec::new();
        let mut i: usize = 0;
        while i < peers.len()
            invariant
                i <= peers.len(),
                keys(entries@).no_duplicates(),
                forall|m: int| 0 <= m < entries.len() ==> (#[trigger] entries@[m]).1@ == Set::<
                    i32,
                >::empty(),
                forall|m: int|
                    0 <= m < entries.len() ==> (#[trigger] keys(entries@)[m]) != except@
                        && exists|j: int| 0 <= j < i && peers.deep_view()[j] == keys(entries@)[m],
                forall|j: int|
                    0 <= j < i && (#[trigger] peers.deep_view()[j]) != except@ ==> keys(
                        entries@,
                    ).contains(peers.deep_view()[j]),
            decreases peers.len() - i,
        {
            let ghost before = entries@;
            if peers[i] != *except && position(&entries, &peers[i]).is_none() {
                entries.push((peers[i].clone(), HashSet::new()));
                assert(keys(entries@) =~= keys(before).push(peers.deep_view()[i as int]));
            }
            proof {
                assert forall|j: int|
                    0 <= j < i + 1 && (#[trigger] peers.deep_view()[j]) != except@ implies keys(
                    entries@,
                ).contains(peers.deep_view()[j]) by {
                    let k = peers.deep_view()[j];
                    if keys(before).contains(k) {
                        assert(keys(entries@)[keys(before).index_of(k)] == k);
                    } else {
                        assert(j == i);
                        assert(keys(entries@)[entries.len() - 1] == k);
                    }
                }
            }
            i += 1;
        }
        let table = KnownIds { entries };
        proof {
            let expected = Map::new(
                |k: Seq<char>| peers.deep_view().contains(k) && k != except@,
                |k: Seq<char>| Set::<i32>::empty(),
            );
            let listed = keys(table.entries@);
            assert forall|k: Seq<char>| listed.contains(k) <==> expected.contains_key(k) by {
                if listed.contains(k) {
                    let m = listed.index_of(k);
                    assert(listed[m] == k);
                }
                if expected.contains_key(k) {
                    let j = peers.deep_view().index_of(k);
                    assert(peers.deep_view()[j] == k);
                }
            }
            assert(table@ =~= expected);
        }
        table
    }

    /// Whether `peer` has an entry.
    pub fn contains_peer(&self, peer: &String) -> (found: bool)
        ensures
            found == self@.contains_key(peer@),
    {
        position(&self.entries, peer).is_some()
    }

    /// The values that `peer` is known to possess, if `peer` has an entry.
    pub fn get(&self, peer: &String) -> (found: Option<&HashSet<i32>>)
        ensures
            match found {
                Some(known) => self@.contains_key(peer@) && known@ == self@[peer@],
                None => !self@.contains_key(peer@),
            },
    {
        proof {
            use_type_invariant(self);
        }
        match position(&self.entries, peer) {
            Some(i) => {
                assert(keys(self.entries@).index_of(peer@) == i);
                Some(&self.entries[i].1)
            },
            None => None,
        }
    }

    /// Records that `peer` possesses every one of `values`.
    ///
    /// Returns whether `peer` has an entry; without one nothing changes.
    pub fn record(&mut self, peer: &String, values: &Vec<i32>) -> (found: bool)
        ensures
            found == old(self)@.contains_key(peer@),
            found ==> final(self)@ == old(self)@.insert(
                peer@,
                old(self)@[peer@].union(values@.to_set()),
            ),
            !found ==> final(self)@ == old(self)@,
    {
        broadcast use vstd::std_specs::hash::group_hash_axioms;

        proof {
            use_type_invariant(&*self);
        }
        let ghost before = *self;
        let mut entries: Vec<(String, HashSet<i32>)> = Vec::new();
        core::mem::swap(&mut self.entries, &mut entries);
        let found = match position(&entries, peer) {
            Some(i) => {
                let mut j: usize = 0;
                while j < values.len()
                    invariant
                        j <= values.len(),
                        i < entries.len(),
                        entries.len() == before.entries.len(),
                        keys(entries@) == keys(before.entries@),
                        forall|m: int|
                            0 <= m < entries.len() && m != i ==> (#[trigger] entries@[m]).1@
                                == before.entries@[m].1@,
                        entries@[i as int].1@ == before.entries@[i as int].1@.union(
                            values@.take(j as int).to_set(),
                        ),
                    decreases values.len() - j,
                {
                    let ghost earlier = entries@;
                    entries[i].1.insert(values[j]);
                    proof {
                        assert(keys(entries@) =~= keys(earlier));
                        assert(values@.take(j + 1) =~= values@.take(j as int).push(
                            values@[j as int],
                        ));
                        values@.take(j as int).lemma_push_to_set_commute(values@[j as int]);
                        assert(entries@[i as int].1@ =~= before.entries@[i as int].1@.union(
                            values@.take(j + 1).to_set(),
                        ));
                    }
                    j += 1;
                }
                assert(values@.take(values.len() as int) == values@);
                true
            },
            None => false,
        };
        self.entries = entries;
        proof {
            let peers = keys(self.entries@);
            if found {
                let i = peers.index_of(peer@);
                let expected = before@.insert(
                    peer@,
                    before@[peer@].union(values@.to_set()),
                );
                assert forall|k: Seq<char>| peers.contains(k) implies self@[k] == expected[k] by {
                    let m = peers.index_of(k);
                    if k != peer@ {
                        assert(m != i);
                    }
                }
                assert(self@ =~= expected);
            } else {
                assert(self@ =~= before@);
            }
        }
        found
    }
}

} // verus!
