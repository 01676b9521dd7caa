//! How node offsets move when deleted rows are compacted away.

use vstd::prelude::*;

use crate::error::{corrupt, DevonResult, ErrorKind};
use crate::sorted;
use crate::text::with_number;

verus! {

/// A node-offset mapping for one checkpoint: a surviving offset moves down
/// by the number of deleted offsets before it.
#[derive(Debug, Clone, PartialEq, Eq)]
pub struct OffsetRemap {
    old_domain: u64,
    deleted: Vec<u64>,
}

/// The rows before the checkpoint, and which of them are deleted.
#[verifier::ext_equal]
pub struct RemapView {
    pub old_domain: u64,
    pub deleted: Seq<u64>,
}

impl View for OffsetRemap {
    type V = RemapView;

    closed spec fn view(&self) -> RemapView {
        RemapView { old_domain: self.old_domain, deleted: self.deleted@ }
    }
}

/// How many numbers of a list are below `x`.
pub open spec fn rank(list: Seq<u64>, x: int) -> nat
    decreases list.len(),
{
    if list.len() == 0 {
        0
    } else {
        rank(list.drop_last(), x) + if list.last() < x {
            1nat
        } else {
            0nat
        }
    }
}

impl RemapView {
    /// The deleted offsets ascend and are rows.
    pub open spec fn wf(self) -> bool {
        &&& sorted::ascending(self.deleted)
        &&& forall|i: int|
            0 <= i < self.deleted.len() ==> #[trigger] self.deleted[i] < self.old_domain
    }

    /// Whether an offset is a row that stays.
    pub open spec fn survives(self, x: u64) -> bool {
        x < self.old_domain && !self.deleted.contains(x)
    }

    /// Where an offset moves.
    pub open spec fn moved(self, x: u64) -> int {
        x - rank(self.deleted, x as int)
    }

    /// The rows behind the checkpoint.
    pub open spec fn new_domain(self) -> int {
        self.old_domain - self.deleted.len()
    }

    /// The surviving offset that moves to `y`, if there is one.
    pub open spec fn survivor_at(self, y: int) -> Option<u64> {
        if exists|x: u64| #[trigger] self.survives(x) && self.moved(x) == y {
            Some(choose|x: u64| #[trigger] self.survives(x) && self.moved(x) == y)
        } else {
            None
        }
    }
}

/// Between a number and the next the rank grows by one where the number is
/// in the list.
proof fn lemma_rank_step(list: Seq<u64>, x: u64)
    requires
        sorted::ascending(list),
    ensures
        rank(list, x + 1) == rank(list, x as int) + if list.contains(x) {
            1nat
        } else {
            0nat
        },
    decreases list.len(),
{
    if list.len() > 0 {
        let shorter = list.drop_last();
        lemma_rank_step(shorter, x);
        if shorter.contains(x) {
            let i = shorter.index_of(x);
            assert(list[i] == x);
            assert(list[i] < list.last());
        }
        if list.contains(x) && list.last() != x {
            let i = list.index_of(x);
            assert(shorter[i] == x);
        }
        if list.last() == x {
            assert(list[list.len() - 1] == x);
        }
    }
}

/// The rank is the place where a number stands or would have to stand.
proof fn lemma_rank_is_place(list: Seq<u64>, x: u64, place: int)
    requires
        0 <= place <= list.len(),
        forall|i: int| 0 <= i < place ==> #[trigger] list[i] < x,
        forall|i: int| place <= i < list.len() ==> x <= #[trigger] list[i],
    ensures
        rank(list, x as int) == place,
    decreases list.len(),
{
    if list.len() > 0 {
        let shorter = list.drop_last();
        if place == list.len() {
            assert(list[list.len() - 1] < x);
            lemma_rank_is_place(shorter, x, place - 1);
        } else {
            assert(x <= list[list.len() - 1]);
            lemma_rank_is_place(shorter, x, place);
        }
    }
}

/// No rank is above the number.
proof fn lemma_rank_bound(list: Seq<u64>, x: u64)
    requires
        sorted::ascending(list),
    ensures
        rank(list, x as int) <= x,
        rank(list, x as int) <= list.len(),
    decreases x,
{
    lemma_rank_at_most_len(list, x as int);
    if x == 0 {
        lemma_rank_is_place(list, 0, 0);
    } else {
        let before = (x - 1) as u64;
        lemma_rank_bound(list, before);
        lemma_rank_step(list, before);
    }
}

proof fn lemma_rank_at_most_len(list: Seq<u64>, x: int)
    ensures
        rank(list, x) <= list.len(),
    decreases list.len(),
{
    if list.len() > 0 {
        lemma_rank_at_most_len(list.drop_last(), x);
    }
}

/// Ranks grow no faster than numbers, and slower behind a number that is
/// not in the list.
proof fn lemma_rank_gap(list: Seq<u64>, x: u64, y: u64)
    requires
        sorted::ascending(list),
        x <= y,
    ensures
        rank(list, x as int) <= rank(list, y as int),
        rank(list, y as int) - rank(list, x as int) <= y - x,
        x < y && !list.contains(x) ==> rank(list, y as int) - rank(list, x as int) < y - x,
    decreases y - x,
{
    if x < y {
        let last = (y - 1) as u64;
        lemma_rank_gap(list, x, last);
        lemma_rank_step(list, last);
    }
}

/// Surviving offsets keep their order.
pub proof fn law_moved_is_monotone(remap: RemapView, x: u64, y: u64)
    requires
        remap.wf(),
        remap.survives(x),
        remap.survives(y),
    ensures
        x < y <==> remap.moved(x) < remap.moved(y),
        x == y <==> remap.moved(x) == remap.moved(y),
{
    if x < y {
        lemma_rank_gap(remap.deleted, x, y);
    } else if y < x {
        lemma_rank_gap(remap.deleted, y, x);
    }
}

/// A surviving offset moves to a row behind the checkpoint, and is the one
/// that moves there.
pub proof fn law_moved_is_a_row(remap: RemapView, x: u64)
    requires
        remap.wf(),
        remap.survives(x),
    ensures
        0 <= remap.moved(x) < remap.new_domain(),
        remap.moved(x) <= x,
        remap.survivor_at(remap.moved(x)) == Some(x),
{
    lemma_rank_bound(remap.deleted, x);
    lemma_rank_gap(remap.deleted, x, remap.old_domain);
    lemma_rank_is_place(remap.deleted, remap.old_domain, remap.deleted.len() as int);
    let y = remap.moved(x);
    let found = remap.survivor_at(y)->Some_0;
    assert(remap.survives(x) && remap.moved(x) == y);
    law_moved_is_monotone(remap, x, found);
}

/// No more rows are deleted than there are.
pub proof fn law_new_domain(remap: RemapView)
    requires
        remap.wf(),
    ensures
        0 <= remap.new_domain() <= remap.old_domain,
{
    lemma_rank_bound(remap.deleted, remap.old_domain);
    lemma_rank_is_place(remap.deleted, remap.old_domain, remap.deleted.len() as int);
}

/// The survivor of a row moves to it.
pub proof fn lemma_survivor(remap: RemapView, y: int)
    ensures
        remap.survivor_at(y) matches Some(x) ==> remap.survives(x) && remap.moved(x) == y,
{
}

/// Every row behind the checkpoint has a survivor.
pub proof fn law_every_row_has_a_survivor(remap: RemapView, y: int)
    requires
        remap.wf(),
        0 <= y < remap.new_domain(),
    ensures
        remap.survivor_at(y) is Some,
{
    lemma_rank_is_place(remap.deleted, remap.old_domain, remap.deleted.len() as int);
    lemma_rank_is_place(remap.deleted, 0, 0);
    lemma_survivor_between(remap, y, 0, remap.old_domain);
}

/// Where the distance to the rank passes `y` between `low` and `high`, a
/// survivor moves to `y`.
proof fn lemma_survivor_between(remap: RemapView, y: int, low: u64, high: u64)
    requires
        remap.wf(),
        low <= high <= remap.old_domain,
        low - rank(remap.deleted, low as int) <= y < high - rank(remap.deleted, high as int),
    ensures
        remap.survivor_at(y) is Some,
    decreases high - low,
{
    if low < high {
        lemma_rank_step(remap.deleted, low);
        let next = (low + 1) as u64;
        if next - rank(remap.deleted, next as int) <= y {
            lemma_survivor_between(remap, y, next, high);
        } else {
            assert(remap.survives(low) && remap.moved(low) == y);
        }
    }
}

impl OffsetRemap {
    /// The deleted offsets ascend and are rows.
    pub open spec fn wf(self) -> bool {
        self@.wf()
    }

    /// A remap over `old_domain` rows, of which `deleted` go.
    pub fn new(old_domain: u64, deleted: Vec<u64>) -> (result: DevonResult<OffsetRemap>)
        ensures
            match result {
                Ok(remap) => {
                    &&& remap.wf()
                    &&& remap@.old_domain == old_domain
                    &&& sorted::same_members(remap@.deleted, deleted@)
                    &&& forall|i: int| 0 <= i < deleted@.len() ==> #[trigger] deleted@[i] < old_domain
                },
                Err(error) => {
                    &&& exists|i: int|
                        0 <= i < deleted@.len() && #[trigger] deleted@[i] >= old_domain
                    &&& error.kind_of() == ErrorKind::Corrupt
                },
            },
    {
        let mut ordered: Vec<u64> = Vec::new();
        sorted::insert_all(&mut ordered, deleted.as_slice());
        if ordered.len() > 0 {
            let last: usize = ordered.len() - 1;
            if ordered[last] >= old_domain {
                let (_there, at): (bool, usize) = sorted::search(&ordered, old_domain);
                proof {
                    assert(ordered@.contains(ordered@[last as int]));
                    let i = deleted@.index_of(ordered@[last as int]);
                    assert(deleted@[i] >= old_domain);
                    if at == ordered@.len() {
                        assert(ordered@[last as int] < old_domain);
                    }
                }
                let head: String = with_number(
                    "deleted node offset ",
                    ordered[at],
                    " is outside old epoch domain ",
                );
                return Err(corrupt(with_number(head.as_str(), old_domain, "").as_str()));
            }
            assert forall|i: int| 0 <= i < ordered@.len() implies #[trigger] ordered@[i]
                < old_domain by {
                assert(ordered@[i] <= ordered@[last as int]);
            }
        }
        assert forall|i: int| 0 <= i < deleted@.len() implies #[trigger] deleted@[i] < old_domain by {
            assert(deleted@.contains(deleted@[i]));
            assert(ordered@.contains(deleted@[i]));
            let k = ordered@.index_of(deleted@[i]);
        }
        Ok(OffsetRemap { old_domain, deleted: ordered })
    }

    /// The remap that moves nothing.
    pub fn identity(old_domain: u64) -> (remap: OffsetRemap)
        ensures
            remap.wf(),
            remap@ == (RemapView { old_domain, deleted: Seq::empty() }),
    {
        OffsetRemap { old_domain, deleted: Vec::new() }
    }

    /// The rows before the checkpoint.
    pub fn old_domain(&self) -> (rows: u64)
        ensures
            rows == self@.old_domain,
    {
        self.old_domain
    }

    /// The rows behind the checkpoint.
    pub fn new_domain(&self) -> (result: DevonResult<u64>)
        requires
            self.wf(),
        ensures
            match result {
                Ok(rows) => rows == self@.new_domain(),
                Err(_) => false,
            },
    {
        proof {
            lemma_rank_bound(self.deleted@, self.old_domain);
            lemma_rank_is_place(self.deleted@, self.old_domain, self.deleted@.len() as int);
        }
        Ok(self.old_domain - self.deleted.len() as u64)
    }

    /// Whether nothing moves.
    pub fn is_identity(&self) -> (yes: bool)
        ensures
            yes == (self@.deleted.len() == 0),
    {
        self.deleted.len() == 0
    }

    /// The deleted offsets in ascending order.
    pub fn deleted_offsets(&self) -> (offsets: &[u64])
        ensures
            offsets@ == self@.deleted,
    {
        self.deleted.as_slice()
    }

    /// Where an offset moves; nowhere where it is deleted.
    pub fn map(&self, old_offset: u64) -> (result: DevonResult<Option<u64>>)
        requires
            self.wf(),
        ensures
            match result {
                Ok(Some(moved)) => self@.survives(old_offset) && moved == self@.moved(old_offset),
                Ok(None) => self@.deleted.contains(old_offset),
                Err(error) => old_offset >= self@.old_domain && error.kind_of()
                    == ErrorKind::Corrupt,
            },
    {
        if old_offset >= self.old_domain {
            let head: String = with_number(
                "node offset ",
                old_offset,
                " is outside old epoch domain ",
            );
            return Err(corrupt(with_number(head.as_str(), self.old_domain, "").as_str()));
        }
        let (there, place): (bool, usize) = sorted::search(&self.deleted, old_offset);
        if there {
            Ok(None)
        } else {
            proof {
                lemma_rank_is_place(self.deleted@, old_offset, place as int);
                lemma_rank_bound(self.deleted@, old_offset);
            }
            Ok(Some(old_offset - place as u64))
        }
    }

    /// Where the survivors of a range move: the first row and the row behind
    /// the last.
    pub fn survivor_range(&self, start: u64, end: u64) -> (range: Option<(u64, u64)>)
        requires
            self.wf(),
            end <= self@.old_domain,
        ensures
            match range {
                Some((first, behind)) => {
                    &&& exists|x: u64|
                        start <= x < end && #[trigger] self@.survives(x) && self@.moved(x) == first
                    &&& exists|x: u64|
                        start <= x < end && #[trigger] self@.survives(x) && self@.moved(x) + 1
                            == behind
                    &&& forall|x: u64|
                        start <= x < end && #[trigger] self@.survives(x) ==> first <= self@.moved(x)
                            < behind
                },
                None => forall|x: u64| start <= x < end ==> !#[trigger] self@.survives(x),
            },
    {
        if start >= end {
            return None;
        }
        let mut first: u64 = start;
        while first < end && sorted::has(&self.deleted, first)
            invariant
                start <= first <= end <= self@.old_domain,
                self.wf(),
                forall|x: u64| start <= x < first ==> !#[trigger] self@.survives(x),
            decreases end - first,
        {
            first += 1;
        }
        if first == end {
            return None;
        }
        let mut last: u64 = end - 1;
        while last > first && sorted::has(&self.deleted, last)
            invariant
                start <= first <= last < end <= self@.old_domain,
                self.wf(),
                self@.survives(first),
                forall|x: u64| last < x < end ==> !#[trigger] self@.survives(x),
            decreases last - first,
        {
            last -= 1;
        }
        assert(self@.survives(last));
        proof {
            law_moved_is_a_row(self@, first);
            law_moved_is_a_row(self@, last);
            assert forall|x: u64| start <= x < end && #[trigger] self@.survives(x) implies self@.moved(
                first,
            ) <= self@.moved(x) <= self@.moved(last) by {
                law_moved_is_monotone(self@, first, x);
                law_moved_is_monotone(self@, x, last);
            }
        }
        let (_there, before_first): (bool, usize) = sorted::search(&self.deleted, first);
        let (_again, before_last): (bool, usize) = sorted::search(&self.deleted, last);
        proof {
            lemma_rank_is_place(self.deleted@, first, before_first as int);
            lemma_rank_is_place(self.deleted@, last, before_last as int);
        }
        Some((first - before_first as u64, last - before_last as u64 + 1))
    }
}

} // verus!
