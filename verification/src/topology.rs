//! A topology: for each node that it lists, the node's neighbors.
//!
//! A topology is a finite map from node identifiers to lists of neighbors.
//! It is kept as a list of entries in which no node occurs twice.

use crate::message::{clone_ids, ids_view, same_ids, NodeId};
use vstd::prelude::*;

verus! {

/// For each node that it lists, the node's neighbors. No node is listed
/// twice. Two topologies are equal when they give the same nodes the same
/// neighbors.
#[derive(Debug, Eq)]
pub struct Topology {
    entries: Vec<(NodeId, Vec<NodeId>)>,
}

/// The view of a list of entries: for each entry the node and its
/// neighbors.
pub open spec fn entries_view(entries: Seq<(NodeId, Vec<NodeId>)>) -> Seq<
    (Seq<char>, Seq<Seq<char>>),
> {
    Seq::new(entries.len(), |i: int| (entries[i].0@, ids_view(entries[i].1@)))
}

/// Whether no node has two entries.
pub open spec fn distinct_nodes(entries: Seq<(Seq<char>, Seq<Seq<char>>)>) -> bool {
    forall|i: int, j: int|
        0 <= i < entries.len() && 0 <= j < entries.len() && i != j ==> (#[trigger] entries[i]).0
            != (#[trigger] entries[j]).0
}

/// Whether `entries` has an entry for `node` at `index`.
pub open spec fn lists_at(
    entries: Seq<(Seq<char>, Seq<Seq<char>>)>,
    node: Seq<char>,
    index: int,
) -> bool {
    0 <= index < entries.len() && entries[index].0 == node
}

/// The map that a list of entries stands for.
pub open spec fn entries_map(entries: Seq<(Seq<char>, Seq<Seq<char>>)>) -> Map<
    Seq<char>,
    Seq<Seq<char>>,
> {
    Map::new(
        |node: Seq<char>| exists|index: int| lists_at(entries, node, index),
        |node: Seq<char>| entries[choose|index: int| lists_at(entries, node, index)].1,
    )
}

/// In a list without a node listed twice, an entry gives the neighbors that
/// the map has for its node.
pub proof fn lemma_entry(entries: Seq<(Seq<char>, Seq<Seq<char>>)>, index: int)
    requires
        distinct_nodes(entries),
        0 <= index < entries.len(),
    ensures
        entries_map(entries).contains_key(entries[index].0),
        entries_map(entries)[entries[index].0] == entries[index].1,
{
    let node = entries[index].0;
    assert(lists_at(entries, node, index));
    let chosen = choose|chosen: int| lists_at(entries, node, chosen);
    assert(chosen == index);
}

impl View for Topology {
    type V = Map<Seq<char>, Seq<Seq<char>>>;

    closed spec fn view(&self) -> Map<Seq<char>, Seq<Seq<char>>> {
        entries_map(entries_view(self.entries@))
    }
}

/// The index of the entry for `node`, if there is one.
fn find_entry(entries: &Vec<(NodeId, Vec<NodeId>)>, node: &NodeId) -> (index: Option<usize>)
    ensures
        match index {
            Some(i) => lists_at(entries_view(entries@), node@, i as int),
            None => forall|j: int| !lists_at(entries_view(entries@), node@, j),
        },
{
    let mut i: usize = 0;
    while i < entries.len()
        invariant
            i <= entries.len(),
            forall|j: int| 0 <= j < i ==> !lists_at(entries_view(entries@), node@, j),
        decreases entries.len() - i,
    {
        if entries[i].0 == *node {
            return Some(i);
        }
        i += 1;
    }
    None
}

impl Topology {
    /// What holds of every topology: no node is listed twice.
    #[verifier::type_invariant]
    spec fn well_formed(self) -> bool {
        distinct_nodes(entries_view(self.entries@))
    }

    /// A topology that lists no node.
    pub fn new() -> (topology: Topology)
        ensures
            topology@ == Map::<Seq<char>, Seq<Seq<char>>>::empty(),
    {
        let topology = Topology { entries: Vec::new() };
        assert(topology@ =~= Map::<Seq<char>, Seq<Seq<char>>>::empty());
        topology
    }

    /// The number of nodes listed.
    pub fn len(&self) -> (len: usize)
        ensures
            self@.dom().finite(),
            len == self@.len(),
    {
        proof {
            use_type_invariant(self);
            lemma_entries_len(entries_view(self.entries@));
        }
        self.entries.len()
    }

    /// The neighbors of `node`, if the topology lists it.
    pub fn get(&self, node: &NodeId) -> (neighbors: Option<&Vec<NodeId>>)
        ensures
            match neighbors {
                Some(neighbors) => self@.contains_key(node@) && self@[node@] == ids_view(
                    neighbors@,
                ),
                None => !self@.contains_key(node@),
            },
    {
        proof {
            use_type_invariant(self);
        }
        match find_entry(&self.entries, node) {
            Some(index) => {
                proof {
                    lemma_entry(entries_view(self.entries@), index as int);
                }
                Some(&self.entries[index].1)
            },
            None => None,
        }
    }

    /// Gives `node` the neighbors `neighbors`, in place of those that it
    /// had, which are handed back.
    pub fn insert(&mut self, node: NodeId, neighbors: Vec<NodeId>) -> (previous: Option<
        Vec<NodeId>,
    >)
        ensures
            final(self)@ == old(self)@.insert(node@, ids_view(neighbors@)),
            match previous {
                Some(previous) => old(self)@.contains_key(node@) && old(self)@[node@] == ids_view(
                    previous@,
                ),
                None => !old(self)@.contains_key(node@),
            },
    {
        let previous = self.remove(&node);
        proof {
            use_type_invariant(&*self);
        }
        let mut entries: Vec<(NodeId, Vec<NodeId>)> = Vec::new();
        core::mem::swap(&mut entries, &mut self.entries);
        let ghost without = entries_view(entries@);
        entries.push((node, neighbors));
        proof {
            let after = entries_view(entries@);
            assert(after.drop_last() =~= without);
            assert(!entries_map(without).contains_key(node@));
            assert forall|j: int| 0 <= j < without.len() implies (#[trigger] without[j]).0
                != node@ by {
                if without[j].0 == node@ {
                    assert(lists_at(without, node@, j));
                }
            }
            assert(distinct_nodes(after)) by {
                assert forall|i: int, j: int|
                    0 <= i < after.len() && 0 <= j < after.len() && i != j implies (
                    #[trigger] after[i]).0 != (#[trigger] after[j]).0 by {
                    if i < without.len() {
                        assert(after[i] == without[i]);
                    }
                    if j < without.len() {
                        assert(after[j] == without[j]);
                    }
                }
            }
            lemma_entries_push(after);
            assert(entries_map(after) =~= old(self)@.insert(node@, ids_view(neighbors@)));
        }
        self.entries = entries;
        previous
    }

    /// Takes `node` off the list and hands back the neighbors that it had.
    pub fn remove(&mut self, node: &NodeId) -> (neighbors: Option<Vec<NodeId>>)
        ensures
            final(self)@ == old(self)@.remove(node@),
            match neighbors {
                Some(neighbors) => old(self)@.contains_key(node@) && old(self)@[node@] == ids_view(
                    neighbors@,
                ),
                None => !old(self)@.contains_key(node@),
            },
    {
        proof {
            use_type_invariant(&*self);
        }
        let mut entries: Vec<(NodeId, Vec<NodeId>)> = Vec::new();
        core::mem::swap(&mut entries, &mut self.entries);
        let ghost before = entries_view(entries@);
        let neighbors = match find_entry(&entries, node) {
            Some(index) => {
                proof {
                    lemma_entry(before, index as int);
                }
                let entry = entries.remove(index);
                proof {
                    assert(entries_view(entries@) =~= before.remove(index as int));
                    lemma_entries_remove(before, index as int);
                }
                Some(entry.1)
            },
            None => {
                assert(entries_map(before) =~= entries_map(before).remove(node@));
                None
            },
        };
        self.entries = entries;
        neighbors
    }

    /// The entries, one for each node listed.
    pub fn entries(&self) -> (entries: &Vec<(NodeId, Vec<NodeId>)>)
        ensures
            distinct_nodes(entries_view(entries@)),
            entries_map(entries_view(entries@)) == self@,
    {
        proof {
            use_type_invariant(self);
        }
        &self.entries
    }
}

impl Clone for Topology {
    /// A copy with the same view.
    fn clone(&self) -> (copy: Self)
        ensures
            copy@ == self@,
    {
        proof {
            use_type_invariant(self);
        }
        let mut entries: Vec<(NodeId, Vec<NodeId>)> = Vec::new();
        let mut i: usize = 0;
        assert(entries_view(entries@) =~= entries_view(self.entries@).take(0));
        while i < self.entries.len()
            invariant
                i <= self.entries.len(),
                entries.len() == i,
                entries_view(entries@) == entries_view(self.entries@).take(i as int),
            decreases self.entries.len() - i,
        {
            let node = self.entries[i].0.clone();
            let neighbors = clone_ids(&self.entries[i].1);
            entries.push((node, neighbors));
            i += 1;
            assert(entries_view(entries@) =~= entries_view(self.entries@).take(i as int));
        }
        assert(entries_view(entries@) =~= entries_view(self.entries@));
        Topology { entries }
    }
}

impl PartialEq for Topology {
    fn eq(&self, other: &Self) -> (equal: bool) {
        proof {
            use_type_invariant(self);
            use_type_invariant(other);
            lemma_entries_len(entries_view(self.entries@));
            lemma_entries_len(entries_view(other.entries@));
        }
        if self.entries.len() != other.entries.len() {
            return false;
        }
        let ghost listed = entries_view(self.entries@);
        let mut i: usize = 0;
        while i < self.entries.len()
            invariant
                i <= self.entries.len(),
                listed == entries_view(self.entries@),
                distinct_nodes(listed),
                forall|j: int|
                    0 <= j < i ==> {
                        &&& other@.contains_key((#[trigger] listed[j]).0)
                        &&& other@[listed[j].0] == listed[j].1
                    },
            decreases self.entries.len() - i,
        {
            proof {
                lemma_entry(listed, i as int);
            }
            match other.get(&self.entries[i].0) {
                Some(neighbors) => {
                    if !same_ids(neighbors, &self.entries[i].1) {
                        return false;
                    }
                },
                None => {
                    return false;
                },
            }
            i += 1;
        }
        proof {
            assert forall|node: Seq<char>| #[trigger] self@.dom().contains(node) implies {
                &&& other@.dom().contains(node)
                &&& self@[node] == other@[node]
            } by {
                let index = choose|index: int| lists_at(listed, node, index);
                lemma_entry(listed, index);
            }
            vstd::set_lib::lemma_subset_equality(self@.dom(), other@.dom());
            assert(self@ =~= other@);
        }
        true
    }
}

impl vstd::std_specs::cmp::PartialEqSpecImpl for Topology {
    open spec fn obeys_eq_spec() -> bool {
        true
    }

    open spec fn eq_spec(&self, other: &Self) -> bool {
        self@ == other@
    }
}

/// A list without a node listed twice stands for a map of as many nodes as
/// it has entries.
pub proof fn lemma_entries_len(entries: Seq<(Seq<char>, Seq<Seq<char>>)>)
    requires
        distinct_nodes(entries),
    ensures
        entries_map(entries).dom().finite(),
        entries_map(entries).len() == entries.len(),
    decreases entries.len(),
{
    if entries.len() == 0 {
        assert(entries_map(entries).dom() =~= Set::empty());
    } else {
        let shorter = entries.drop_last();
        let last = entries.last();
        assert(distinct_nodes(shorter)) by {
            assert forall|i: int, j: int|
                0 <= i < shorter.len() && 0 <= j < shorter.len() && i != j implies (
                #[trigger] shorter[i]).0 != (#[trigger] shorter[j]).0 by {
                assert(shorter[i] == entries[i]);
                assert(shorter[j] == entries[j]);
            }
        }
        lemma_entries_len(shorter);
        assert(!entries_map(shorter).dom().contains(last.0)) by {
            if entries_map(shorter).dom().contains(last.0) {
                let index = choose|index: int| lists_at(shorter, last.0, index);
                assert(shorter[index] == entries[index]);
            }
        }
        assert(entries_map(entries).dom() =~= entries_map(shorter).dom().insert(last.0)) by {
            assert forall|node: Seq<char>|
                entries_map(entries).dom().contains(node) == entries_map(shorter).dom().insert(
                    last.0,
                ).contains(node) by {
                if entries_map(entries).dom().contains(node) {
                    let index = choose|index: int| lists_at(entries, node, index);
                    if index < shorter.len() {
                        assert(lists_at(shorter, node, index));
                    }
                }
                if entries_map(shorter).dom().contains(node) {
                    let index = choose|index: int| lists_at(shorter, node, index);
                    assert(lists_at(entries, node, index));
                }
                if node == last.0 {
                    assert(lists_at(entries, node, entries.len() - 1));
                }
            }
        }
    }
}

/// Taking the entry at `index` off a list takes its node off the map.
proof fn lemma_entries_remove(before: Seq<(Seq<char>, Seq<Seq<char>>)>, index: int)
    requires
        distinct_nodes(before),
        0 <= index < before.len(),
    ensures
        distinct_nodes(before.remove(index)),
        entries_map(before.remove(index)) == entries_map(before).remove(before[index].0),
{
    let after = before.remove(index);
    let node = before[index].0;
    let shifted = |j: int| if j < index { j } else { j + 1 };
    assert forall|j: int| 0 <= j < after.len() implies #[trigger] after[j] == before[shifted(
        j,
    )] by {}
    assert(distinct_nodes(after)) by {
        assert forall|i: int, j: int|
            0 <= i < after.len() && 0 <= j < after.len() && i != j implies (#[trigger] after[i]).0
            != (#[trigger] after[j]).0 by {
            assert(after[i] == before[shifted(i)]);
            assert(after[j] == before[shifted(j)]);
        }
    }
    let left = entries_map(after);
    let right = entries_map(before).remove(node);
    assert forall|other: Seq<char>| #[trigger] left.dom().contains(other) implies {
        &&& right.dom().contains(other)
        &&& left[other] == right[other]
    } by {
        let j = choose|j: int| lists_at(after, other, j);
        assert(after[j] == before[shifted(j)]);
        assert(lists_at(before, other, shifted(j)));
        lemma_entry(before, shifted(j));
        lemma_entry(after, j);
    }
    assert forall|other: Seq<char>| #[trigger] right.dom().contains(other) implies left.dom()
        .contains(other) by {
        let k = choose|k: int| lists_at(before, other, k);
        let j = if k < index { k } else { k - 1 };
        assert(after[j] == before[shifted(j)]);
        assert(lists_at(after, other, j));
    }
    assert(left =~= right);
}

/// The last entry of a list without a node listed twice gives its node
/// its neighbors in the map; the entries before it give the rest.
proof fn lemma_entries_push(after: Seq<(Seq<char>, Seq<Seq<char>>)>)
    requires
        distinct_nodes(after),
        after.len() > 0,
    ensures
        entries_map(after) == entries_map(after.drop_last()).insert(after.last().0, after.last().1),
{
    let without = after.drop_last();
    let left = entries_map(after);
    let right = entries_map(without).insert(after.last().0, after.last().1);
    assert forall|other: Seq<char>| #[trigger] left.dom().contains(other) implies {
        &&& right.dom().contains(other)
        &&& left[other] == right[other]
    } by {
        let j = choose|j: int| lists_at(after, other, j);
        lemma_entry(after, j);
        if j < without.len() {
            assert(without[j] == after[j]);
            assert(lists_at(without, other, j));
            let chosen = choose|chosen: int| lists_at(without, other, chosen);
            assert(without[chosen] == after[chosen]);
        }
    }
    assert forall|other: Seq<char>| #[trigger] right.dom().contains(other) implies left.dom()
        .contains(other) by {
        if other == after.last().0 {
            assert(lists_at(after, other, after.len() - 1));
        } else {
            let j = choose|j: int| lists_at(without, other, j);
            assert(without[j] == after[j]);
            assert(lists_at(after, other, j));
        }
    }
    assert(left =~= right);
}

} // verus!
