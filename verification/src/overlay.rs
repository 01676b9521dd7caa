//! Committed changes that are not yet in the stored groups.

use std::collections::BTreeSet;
use vstd::prelude::*;
use vstd::std_specs::iter::IteratorSpec;

use crate::sorted;

pub mod chain;
pub mod delta;
pub mod fulltext;
pub mod merge;
pub mod pk_cache;
pub mod pk_index;
pub mod published;
pub mod reclaim;
pub mod summary;

verus! {

broadcast use vstd::std_specs::btree::group_btree_axioms;

/// The endpoints of a relationship table whose nodes are gone, by role.
#[derive(Debug)]
pub struct RelEndpointTombstones {
    pub from_offsets: BTreeSet<u64>,
    pub to_offsets: BTreeSet<u64>,
}

/// The gone endpoints by role.
#[verifier::ext_equal]
pub struct TombstonesView {
    pub from: Set<u64>,
    pub to: Set<u64>,
}

impl View for RelEndpointTombstones {
    type V = TombstonesView;

    open spec fn view(&self) -> TombstonesView {
        TombstonesView { from: self.from_offsets@, to: self.to_offsets@ }
    }
}

impl TombstonesView {
    /// No endpoint is gone.
    pub open spec fn none() -> TombstonesView {
        TombstonesView { from: Set::empty(), to: Set::empty() }
    }

    /// Whether an edge has a gone endpoint.
    pub open spec fn hides(self, from: u64, to: u64) -> bool {
        self.from.contains(from) || self.to.contains(to)
    }
}

/// The offsets of a set in ascending order.
pub fn offsets_of(set: &BTreeSet<u64>) -> (list: Vec<u64>)
    ensures
        list@.to_set() == set@,
        sorted::ascending(list@),
{
    let mut list: Vec<u64> = Vec::new();
    let ghost all = set.iter().remaining().unref();
    for offset in offsets: set.iter()
        invariant
            offsets.seq().unref() == all,
            list@.len() == offsets.index(),
            forall|k: int| 0 <= k < list@.len() ==> #[trigger] list@[k] == all[k],
    {
        list.push(*offset);
    }
    assert(list@ =~= all);
    let mut ordered: Vec<u64> = Vec::new();
    sorted::insert_all(&mut ordered, list.as_slice());
    assert(ordered@.to_set() =~= set@);
    ordered
}

/// Puts all offsets of `more` into `set`.
fn merge_offsets(set: &mut BTreeSet<u64>, more: &BTreeSet<u64>)
    ensures
        final(set)@ == old(set)@.union(more@),
{
    let ghost before = set@;
    let list: Vec<u64> = offsets_of(more);
    let mut i: usize = 0;
    assert(set@ =~= before.union(list@.subrange(0, 0).to_set()));
    while i < list.len()
        invariant
            i <= list@.len(),
            set@ == before.union(list@.subrange(0, i as int).to_set()),
        decreases list@.len() - i,
    {
        set.insert(list[i]);
        proof {
            let part = list@.subrange(0, i as int);
            let next = list@.subrange(0, i + 1);
            assert(next =~= part.push(list@[i as int]));
            assert forall|x: u64| #[trigger] next.contains(x) <==> part.contains(x) || x
                == list@[i as int] by {
                if x == list@[i as int] {
                    assert(next[i as int] == x);
                }
                if part.contains(x) {
                    let k = part.index_of(x);
                    assert(next[k] == x);
                }
            }
            assert(set@ =~= before.union(next.to_set()));
        }
        i += 1;
    }
    assert(list@.subrange(0, list@.len() as int) =~= list@);
}

impl RelEndpointTombstones {
    /// No endpoint is gone.
    pub fn new() -> (none: RelEndpointTombstones)
        ensures
            none@ == TombstonesView::none(),
    {
        RelEndpointTombstones { from_offsets: BTreeSet::new(), to_offsets: BTreeSet::new() }
    }

    /// Whether no endpoint is gone.
    pub fn is_empty(&self) -> (empty: bool)
        ensures
            empty == (self@ == TombstonesView::none()),
    {
        let empty: bool = self.from_offsets.is_empty() && self.to_offsets.is_empty();
        assert(empty ==> self@ =~= TombstonesView::none());
        empty
    }

    /// Takes the gone endpoints of `other` in.
    pub fn union_with(&mut self, other: &RelEndpointTombstones)
        ensures
            final(self)@ == (TombstonesView {
                from: old(self)@.from.union(other@.from),
                to: old(self)@.to.union(other@.to),
            }),
    {
        merge_offsets(&mut self.from_offsets, &other.from_offsets);
        merge_offsets(&mut self.to_offsets, &other.to_offsets);
    }
}

} // verus!
