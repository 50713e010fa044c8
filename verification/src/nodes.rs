//! The node-location table, with its capacity guard.
//!
//! Every node of the input is counted; the first `max_nodes` of them are
//! stored (id to coordinates) and an input with more nodes than that is
//! refused once the scan is done, rather than growing the table without
//! bound.  Coordinates are kept as the bit patterns of the `f32` pair they
//! were narrowed to, so the table stores exactly what it was given.

use vstd::prelude::*;
use crate::error::ExtractError;

verus! {

/// Node id to `(lon, lat)` as `f32` bit patterns, in an `FxHashMap`.
#[verifier::external_body]
pub struct NodeLocations {
    map: fxhash::FxHashMap<i64, (u32, u32)>,
}

/// What a [`NodeLocations`] holds.
pub uninterp spec fn node_entries(t: NodeLocations) -> Map<i64, (u32, u32)>;

/// The empty table contents.
pub open spec fn no_nodes() -> Map<i64, (u32, u32)> {
    Map::empty()
}

/// An empty `FxHashMap` (`Default::default`).
#[verifier::external_body]
fn locations_new() -> (t: NodeLocations)
    ensures
        node_entries(t) == no_nodes(),
{
    NodeLocations { map: fxhash::FxHashMap::default() }
}

/// `HashMap::insert`: the entry for `id` is set to `coords`.
#[verifier::external_body]
fn locations_insert(t: &mut NodeLocations, id: i64, coords: (u32, u32))
    ensures
        node_entries(*final(t)) == node_entries(*old(t)).insert(id, coords),
{
    t.map.insert(id, coords);
}

/// `HashMap::get`: the entry for `id`, copied out.
#[verifier::external_body]
fn locations_get(t: &NodeLocations, id: i64) -> (r: Option<(u32, u32)>)
    ensures
        r == (if node_entries(*t).contains_key(id) {
            Some(node_entries(*t)[id])
        } else {
            None
        }),
{
    t.map.get(&id).copied()
}

/// `HashMap::len`: the number of entries.
#[verifier::external_body]
fn locations_len(t: &NodeLocations) -> (n: usize)
    ensures
        n == node_entries(*t).dom().len(),
{
    t.map.len()
}

/// What a table of capacity `max` stores after counting `nodes` in order:
/// each of the first `max` nodes is entered under its id, a later entry for
/// the same id replacing an earlier one, and the nodes past the capacity are
/// counted without being stored.
pub open spec fn loaded(nodes: Seq<(i64, (u32, u32))>, max: nat) -> Map<i64, (u32, u32)>
    decreases nodes.len(),
{
    if nodes.len() == 0 {
        no_nodes()
    } else {
        let prev = loaded(nodes.drop_last(), max);
        if nodes.len() <= max {
            prev.insert(nodes.last().0, nodes.last().1)
        } else {
            prev
        }
    }
}

/// No two of `nodes` share an id.
pub open spec fn distinct_ids(nodes: Seq<(i64, (u32, u32))>) -> bool {
    forall|i: int, j: int| 0 <= i < j < nodes.len() ==> #[trigger] nodes[i].0 != #[trigger] nodes[j].0
}

/// The node table: the stored locations, the number of nodes counted so
/// far and the capacity.
pub struct NodeTable {
    locations: NodeLocations,
    seen: u64,
    max: u64,
    recorded: Ghost<Seq<(i64, (u32, u32))>>,
}

impl NodeTable {
    /// What the table holds.
    pub closed spec fn entries(&self) -> Map<i64, (u32, u32)> {
        node_entries(self.locations)
    }

    /// Nodes counted so far.
    pub closed spec fn seen_count(&self) -> nat {
        self.seen as nat
    }

    /// The capacity.
    pub closed spec fn capacity(&self) -> nat {
        self.max as nat
    }

    /// Every node counted so far, in the order it was counted.
    pub closed spec fn history(&self) -> Seq<(i64, (u32, u32))> {
        self.recorded@
    }

    /// The table holds what counting its history gives, and its count is
    /// the length of that history.
    pub open spec fn wf(&self) -> bool {
        &&& self.entries() == loaded(self.history(), self.capacity())
        &&& self.seen_count() == self.history().len()
    }

    /// An empty table that will store at most `max_nodes` nodes.
    pub fn with_capacity(max_nodes: u64) -> (t: NodeTable)
        ensures
            t.wf(),
            t.history() == Seq::<(i64, (u32, u32))>::empty(),
            t.entries() == no_nodes(),
            t.seen_count() == 0,
            t.capacity() == max_nodes,
    {
        NodeTable { locations: locations_new(), seen: 0, max: max_nodes, recorded: Ghost(Seq::empty()) }
    }

    /// Counts one node of the input and stores its location while the count
    /// is within the capacity.
    pub fn record(&mut self, id: i64, coords: (u32, u32))
        requires
            old(self).wf(),
            old(self).seen_count() < u64::MAX,
        ensures
            final(self).wf(),
            final(self).history() == old(self).history().push((id, coords)),
            final(self).seen_count() == old(self).seen_count() + 1,
            final(self).capacity() == old(self).capacity(),
            final(self).entries() == if final(self).seen_count() <= old(self).capacity() {
                old(self).entries().insert(id, coords)
            } else {
                old(self).entries()
            },
    {
        let ghost before = self.recorded@;
        self.seen = self.seen + 1;
        if self.seen <= self.max {
            locations_insert(&mut self.locations, id, coords);
        }
        self.recorded = Ghost(before.push((id, coords)));
        proof {
            assert(self.recorded@.drop_last() =~= before);
        }
    }

    /// Ends the scan: the table, or the refusal of an input with more nodes
    /// than the capacity.
    pub fn finish(self) -> (r: Result<NodeTable, ExtractError>)
        requires
            self.wf(),
        ensures
            self.seen_count() <= self.capacity() ==> (r matches Ok(t) && t.wf() && t.entries() == self.entries()
                && t.history() == self.history() && t.seen_count() == self.seen_count()
                && t.capacity() == self.capacity()),
            self.seen_count() > self.capacity() ==> (r matches Err(ExtractError::TooManyNodes { seen, max })
                && seen == self.seen_count() && max == self.capacity()),
    {
        if self.seen > self.max {
            Err(ExtractError::TooManyNodes { seen: self.seen, max: self.max })
        } else {
            Ok(self)
        }
    }

    /// The number of nodes counted so far.
    pub fn seen(&self) -> (n: u64)
        ensures
            n == self.seen_count(),
    {
        self.seen
    }

    /// The stored location of node `id`, as `f32` bit patterns.
    pub fn get(&self, id: i64) -> (r: Option<(u32, u32)>)
        ensures
            r == (if self.entries().contains_key(id) {
                Some(self.entries()[id])
            } else {
                None
            }),
    {
        locations_get(&self.locations, id)
    }

    /// The number of stored nodes.
    pub fn len(&self) -> (n: u64)
        ensures
            n == self.entries().dom().len(),
    {
        let n = locations_len(&self.locations);
        assert(n <= usize::MAX);
        n as u64
    }

    /// Whether no node is stored.
    pub fn is_empty(&self) -> (b: bool)
        ensures
            b == (self.entries().dom().len() == 0),
    {
        locations_len(&self.locations) == 0
    }
}

/// Loading keeps the first `max` nodes and no others: counting more nodes
/// past the capacity stores nothing more.  Within the capacity the table
/// holds exactly the ids counted, and when no id repeats it holds one entry
/// per node, each with that node's own location.
pub proof fn lemma_loaded(nodes: Seq<(i64, (u32, u32))>, max: nat)
    ensures
        loaded(nodes, max).dom().finite(),
        max < nodes.len() ==> loaded(nodes, max) == loaded(nodes.take(max as int), max),
        nodes.len() <= max ==> forall|id: i64|
            #[trigger] loaded(nodes, max).contains_key(id) <==> exists|i: int|
                0 <= i < nodes.len() && #[trigger] nodes[i].0 == id,
        nodes.len() <= max && distinct_ids(nodes) ==> loaded(nodes, max).dom().len() == nodes.len(),
        nodes.len() <= max && distinct_ids(nodes) ==> forall|i: int|
            0 <= i < nodes.len() ==> loaded(nodes, max)[#[trigger] nodes[i].0] == nodes[i].1,
    decreases nodes.len(),
{
    if nodes.len() == 0 {
        assert(loaded(nodes, max).dom() =~= Set::<i64>::empty());
    } else {
        let prev = nodes.drop_last();
        lemma_loaded(prev, max);
        let n = nodes.last();
        if max < nodes.len() {
            if max < prev.len() {
                assert(prev.take(max as int) =~= nodes.take(max as int));
            } else {
                assert(prev =~= nodes.take(max as int));
            }
        } else {
            assert forall|id: i64| #[trigger] loaded(nodes, max).contains_key(id) <==> exists|i: int|
                0 <= i < nodes.len() && #[trigger] nodes[i].0 == id by {
                if loaded(nodes, max).contains_key(id) && id != n.0 {
                    assert(loaded(prev, max).contains_key(id));
                    let i = choose|i: int| 0 <= i < prev.len() && #[trigger] prev[i].0 == id;
                    assert(nodes[i].0 == id);
                }
                if exists|i: int| 0 <= i < nodes.len() && #[trigger] nodes[i].0 == id {
                    let i = choose|i: int| 0 <= i < nodes.len() && #[trigger] nodes[i].0 == id;
                    if i < prev.len() {
                        assert(prev[i].0 == id);
                        assert(loaded(prev, max).contains_key(id));
                    }
                }
            }
            if distinct_ids(nodes) {
                assert(distinct_ids(prev)) by {
                    assert forall|i: int, j: int| 0 <= i < j < prev.len() implies #[trigger] prev[i].0
                        != #[trigger] prev[j].0 by {
                        assert(prev[i] == nodes[i] && prev[j] == nodes[j]);
                    }
                }
                if loaded(prev, max).contains_key(n.0) {
                    let i = choose|i: int| 0 <= i < prev.len() && #[trigger] prev[i].0 == n.0;
                    assert(nodes[i].0 == nodes[nodes.len() - 1].0);
                }
                assert(loaded(nodes, max).dom() =~= loaded(prev, max).dom().insert(n.0));
                assert forall|i: int| 0 <= i < nodes.len() implies loaded(nodes, max)[#[trigger] nodes[i].0]
                    == nodes[i].1 by {
                    if i < prev.len() {
                        assert(prev[i] == nodes[i]);
                        assert(nodes[i].0 != nodes[nodes.len() - 1].0);
                    }
                }
            }
        }
    }
}

} // verus!
