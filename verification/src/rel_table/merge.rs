//! Merging buffered edges into the stored groups.

use vstd::prelude::*;

use crate::error::{invalid_argument, DevonResult, ErrorKind};
use crate::groups;
use crate::groups::{duplicate_edges, CsrEdge, CsrGroup, CsrView, EdgeView, GroupStore, GroupView, StoredGroup};
use crate::rel_table::edges;
use crate::rel_table::edges::{Direction, RelationshipView, ScannedRelationship, SideView};
use crate::rel_table::layout;
use crate::rel_table::{more_rows_than_its_group, stored_group_id, Side};
use crate::types::{duplicate_values, LogicalType};

verus! {

/// The groups, the next page id, and the page ids of one side.
#[verifier::ext_equal]
pub struct MergeView {
    pub store: Map<u64, GroupView>,
    pub next: u64,
    pub ids: Seq<u64>,
}

/// Whether an edge is of a group's rows.
pub open spec fn touches(
    buffered: Seq<RelationshipView>,
    direction: Direction,
    counts: Seq<nat>,
    group: int,
) -> bool {
    exists|i: int|
        0 <= i < buffered.len() && layout::lies_in(
            counts,
            group,
            #[trigger] edges::near(buffered[i], direction) as int,
        )
}

/// A group's slots with the buffered edges of its rows behind the stored
/// ones.
pub open spec fn merged_slots(
    existing: Seq<Seq<EdgeView>>,
    rows: nat,
    first_row: int,
    buffered: Seq<RelationshipView>,
    direction: Direction,
) -> Seq<Seq<EdgeView>> {
    Seq::new(
        rows,
        |slot: int|
            slot_of(existing, slot) + edges::incident(
                buffered,
                direction,
                (first_row + slot) as u64,
            ),
    )
}

/// A slot, empty where there is none.
pub open spec fn slot_of(slots: Seq<Seq<EdgeView>>, slot: int) -> Seq<EdgeView> {
    if 0 <= slot < slots.len() {
        slots[slot]
    } else {
        Seq::empty()
    }
}

/// Page ids with one put in its place, behind zeros where there were none.
pub open spec fn put_id(ids: Seq<u64>, group: int, id: u64) -> Seq<u64> {
    if group < ids.len() {
        ids.update(group, id)
    } else {
        (ids + Seq::new((group - ids.len()) as nat, |i: int| 0u64)).push(id)
    }
}

/// The stored slots of a group, or the kind of error that reading them
/// gives.
pub open spec fn slots_at(
    store: Map<u64, GroupView>,
    side: SideView,
    group: int,
) -> Result<Seq<Seq<EdgeView>>, ErrorKind> {
    match edges::id_at(side.ids, group) {
        None => Ok(Seq::empty()),
        Some(id) => match groups::csr_at(store, id, side.types, side.neighbor_rows) {
            None => Err(ErrorKind::Corrupt),
            Some(csr) => if csr.slots.len() > side.counts[group] {
                Err(ErrorKind::Corrupt)
            } else {
                Ok(csr.slots)
            },
        },
    }
}

/// Merges the buffered edges into the groups from one on: a group that an
/// edge touches is written anew, the others stay.
pub open spec fn merge(
    state: MergeView,
    side: SideView,
    buffered: Seq<RelationshipView>,
    direction: Direction,
    group: nat,
) -> Result<MergeView, ErrorKind>
    decreases side.counts.len() - group,
{
    if group >= side.counts.len() {
        Ok(state)
    } else if !touches(buffered, direction, side.counts, group as int) {
        merge(state, side, buffered, direction, group + 1)
    } else {
        match slots_at(state.store, SideView { ids: state.ids, ..side }, group as int) {
            Err(kind) => Err(kind),
            Ok(existing) => if state.next == u64::MAX {
                Err(ErrorKind::InvalidArgument)
            } else {
                merge(
                    merge_one(state, side, buffered, direction, group as int, existing),
                    side,
                    buffered,
                    direction,
                    group + 1,
                )
            },
        }
    }
}

/// The state with one group written anew.
pub open spec fn merge_one(
    state: MergeView,
    side: SideView,
    buffered: Seq<RelationshipView>,
    direction: Direction,
    group: int,
    existing: Seq<Seq<EdgeView>>,
) -> MergeView {
    let merged = CsrView {
        types: side.types,
        slots: merged_slots(
            existing,
            side.counts[group],
            layout::rows_before(side.counts, group) as int,
            buffered,
            direction,
        ),
    };
    MergeView {
        store: state.store.insert(state.next, GroupView::Csr(merged)),
        next: (state.next + 1) as u64,
        ids: put_id(state.ids, group, state.next),
    }
}

/// Whether a store has kept its groups.
pub open spec fn extends(old_store: Map<u64, GroupView>, new_store: Map<u64, GroupView>) -> bool {
    forall|id: u64| #[trigger]
        old_store.dom().contains(id) ==> new_store.dom().contains(id) && new_store[id]
            == old_store[id]
}

/// Whether the next page id is behind all groups.
pub open spec fn fresh(store: Map<u64, GroupView>, next: u64) -> bool {
    next > 0 && forall|id: u64| #[trigger] store.dom().contains(id) ==> id < next
}

/// Whether buffered edges are between rows, with values of the types.
pub open spec fn edges_between(
    buffered: Seq<RelationshipView>,
    direction: Direction,
    side: SideView,
) -> bool {
    forall|i: int|
        #![trigger buffered[i]]
        0 <= i < buffered.len() ==> edges::near(buffered[i], direction) < layout::total_rows(
            side.counts,
        ) && edges::far(buffered[i], direction) < side.neighbor_rows && groups::values_fit(
            side.types,
            buffered[i].values,
        )
}

/// The edges at a row lead where buffered edges lead.
proof fn lemma_incident_lawful(
    buffered: Seq<RelationshipView>,
    direction: Direction,
    side: SideView,
    row: u64,
    at: int,
)
    requires
        edges_between(buffered, direction, side),
        0 <= at < edges::incident(buffered, direction, row).len(),
    ensures
        edges::incident(buffered, direction, row)[at].neighbor < side.neighbor_rows,
        groups::values_fit(side.types, edges::incident(buffered, direction, row)[at].values),
    decreases buffered.len(),
{
    let shorter = buffered.drop_last();
    let before = edges::incident(shorter, direction, row);
    assert(buffered.last() == buffered[buffered.len() - 1]);
    if at < before.len() {
        assert forall|i: int| #![trigger shorter[i]] 0 <= i < shorter.len() implies edges::near(
            shorter[i],
            direction,
        ) < layout::total_rows(side.counts) && edges::far(shorter[i], direction)
            < side.neighbor_rows && groups::values_fit(side.types, shorter[i].values) by {
            assert(shorter[i] == buffered[i]);
        }
        lemma_incident_lawful(shorter, direction, side, row, at);
    }
}

/// A row that no edge is of has no incident edges.
pub proof fn lemma_no_incident(
    buffered: Seq<RelationshipView>,
    direction: Direction,
    row: u64,
)
    requires
        forall|i: int|
            0 <= i < buffered.len() ==> #[trigger] edges::near(buffered[i], direction) != row,
    ensures
        edges::incident(buffered, direction, row).len() == 0,
    decreases buffered.len(),
{
    if buffered.len() > 0 {
        let shorter = buffered.drop_last();
        assert forall|i: int| 0 <= i < shorter.len() implies #[trigger] edges::near(
            shorter[i],
            direction,
        ) != row by {
            assert(edges::near(buffered[i], direction) != row);
        }
        lemma_no_incident(shorter, direction, row);
        assert(edges::near(buffered[buffered.len() - 1], direction) != row);
    }
}

/// A merged group is lawful.
proof fn lemma_merged_lawful(
    existing: Seq<Seq<EdgeView>>,
    side: SideView,
    buffered: Seq<RelationshipView>,
    direction: Direction,
    group: int,
)
    requires
        edges_between(buffered, direction, side),
        groups::edges_lawful((CsrView { types: side.types, slots: existing }), side.neighbor_rows),
    ensures
        groups::edges_lawful(
            (CsrView {
                types: side.types,
                slots: merged_slots(
                    existing,
                    side.counts[group],
                    layout::rows_before(side.counts, group) as int,
                    buffered,
                    direction,
                ),
            }),
            side.neighbor_rows,
        ),
{
    let first = layout::rows_before(side.counts, group) as int;
    let slots = merged_slots(existing, side.counts[group], first, buffered, direction);
    let view = CsrView { types: side.types, slots: existing };
    assert forall|slot: int, at: int|
        #![trigger slots[slot][at]]
        0 <= slot < slots.len() && 0 <= at < slots[slot].len() implies slots[slot][at].neighbor
        < side.neighbor_rows && groups::values_fit(side.types, slots[slot][at].values) by {
        let base = slot_of(existing, slot);
        let row = (first + slot) as u64;
        if at < base.len() {
            assert(slots[slot][at] == view.slots[slot][at]);
        } else {
            assert(slots[slot][at] == edges::incident(buffered, direction, row)[at - base.len()]);
            lemma_incident_lawful(buffered, direction, side, row, at - base.len());
        }
    }
}

/// What stays when a store grows: a row's stored edges, where they were
/// readable and its page id is the same.
pub proof fn lemma_stored_kept(
    old_store: Map<u64, GroupView>,
    new_store: Map<u64, GroupView>,
    old_side: SideView,
    new_side: SideView,
    row: u64,
)
    requires
        extends(old_store, new_store),
        old_side.counts == new_side.counts,
        old_side.types == new_side.types,
        old_side.neighbor_rows == new_side.neighbor_rows,
        layout::group_of(old_side.counts, row as int) matches Some(group) ==> edges::id_at(
            old_side.ids,
            group,
        ) == edges::id_at(new_side.ids, group),
        edges::stored(old_store, old_side, row) is Ok,
    ensures
        edges::stored(new_store, new_side, row) == edges::stored(old_store, old_side, row),
{
}

/// What a merge does: the groups before stay, and each row's edges get the
/// buffered ones behind them.
pub proof fn lemma_merge(
    state: MergeView,
    side: SideView,
    buffered: Seq<RelationshipView>,
    direction: Direction,
    group: nat,
)
    requires
        group <= side.counts.len(),
        fresh(state.store, state.next),
        edges_between(buffered, direction, side),
        layout::total_rows(side.counts) <= u64::MAX,
        merge(state, side, buffered, direction, group) is Ok,
    ensures
        ({
            let after = merge(state, side, buffered, direction, group)->Ok_0;
            &&& extends(state.store, after.store)
            &&& fresh(after.store, after.next)
            &&& forall|h: int| 0 <= h < group ==> #[trigger] edges::id_at(after.ids, h)
                == edges::id_at(state.ids, h)
            &&& state.ids.len() <= side.counts.len() ==> after.ids.len() <= side.counts.len()
        }),
        forall|row: u64| #[trigger]
            rows_merged(state, side, buffered, direction, group, row),
    decreases side.counts.len() - group,
{
    if group >= side.counts.len() {
        assert forall|row: u64| #[trigger] rows_merged(
            state,
            side,
            buffered,
            direction,
            group,
            row,
        ) by {
            lemma_row_in_no_group(side, group, row);
        }
    } else if !touches(buffered, direction, side.counts, group as int) {
        lemma_merge(state, side, buffered, direction, group + 1);
        assert forall|row: u64| #[trigger] rows_merged(
            state,
            side,
            buffered,
            direction,
            group,
            row,
        ) by {
            assert(rows_merged(state, side, buffered, direction, group + 1, row));
            lemma_untouched_row(state, side, buffered, direction, group, row);
        }
    } else {
        let existing = slots_at(
            state.store,
            SideView { ids: state.ids, ..side },
            group as int,
        )->Ok_0;
        let next = merge_one(state, side, buffered, direction, group as int, existing);
        lemma_merge(next, side, buffered, direction, group + 1);
        let after = merge(state, side, buffered, direction, group)->Ok_0;
        assert forall|h: int| 0 <= h < group implies #[trigger] edges::id_at(after.ids, h)
            == edges::id_at(state.ids, h) by {
            assert(edges::id_at(next.ids, h) == edges::id_at(state.ids, h));
        }
        assert(extends(state.store, after.store)) by {
            assert forall|id: u64| #[trigger] state.store.dom().contains(id) implies
                after.store.dom().contains(id) && after.store[id] == state.store[id] by {
                assert(next.store.dom().contains(id));
            }
        }
        assert forall|row: u64| #[trigger] rows_merged(
            state,
            side,
            buffered,
            direction,
            group,
            row,
        ) by {
            assert(rows_merged(next, side, buffered, direction, group + 1, row));
            lemma_touched_row(state, side, buffered, direction, group, row, existing);
        }
    }
}

/// What a merge from a group on does to a row.
pub open spec fn rows_merged(
    state: MergeView,
    side: SideView,
    buffered: Seq<RelationshipView>,
    direction: Direction,
    group: nat,
    row: u64,
) -> bool {
    let after = merge(state, side, buffered, direction, group)->Ok_0;
    let before = edges::stored(state.store, SideView { ids: state.ids, ..side }, row);
    let now = edges::stored(after.store, SideView { ids: after.ids, ..side }, row);
    before is Ok ==> now == Ok::<Seq<EdgeView>, ErrorKind>(
        before->Ok_0 + if row >= layout::rows_before(side.counts, group as int) {
            edges::incident(buffered, direction, row)
        } else {
            Seq::empty()
        },
    ) || row >= layout::total_rows(side.counts)
}

proof fn lemma_row_in_no_group(side: SideView, group: nat, row: u64)
    requires
        group >= side.counts.len(),
        group <= side.counts.len(),
    ensures
        row >= layout::rows_before(side.counts, group as int) ==> row >= layout::total_rows(
            side.counts,
        ),
{
}

proof fn lemma_untouched_row(
    state: MergeView,
    side: SideView,
    buffered: Seq<RelationshipView>,
    direction: Direction,
    group: nat,
    row: u64,
)
    requires
        group < side.counts.len(),
        !touches(buffered, direction, side.counts, group as int),
        merge(state, side, buffered, direction, group) is Ok,
        rows_merged(state, side, buffered, direction, group + 1, row),
    ensures
        rows_merged(state, side, buffered, direction, group, row),
{
    if layout::lies_in(side.counts, group as int, row as int) {
        assert forall|i: int| 0 <= i < buffered.len() implies #[trigger] edges::near(
            buffered[i],
            direction,
        ) != row by {}
        lemma_no_incident(buffered, direction, row);
        assert(edges::incident(buffered, direction, row) =~= Seq::empty());
    }
}

proof fn lemma_touched_row(
    state: MergeView,
    side: SideView,
    buffered: Seq<RelationshipView>,
    direction: Direction,
    group: nat,
    row: u64,
    existing: Seq<Seq<EdgeView>>,
)
    requires
        group < side.counts.len(),
        fresh(state.store, state.next),
        state.next < u64::MAX,
        edges_between(buffered, direction, side),
        layout::total_rows(side.counts) <= u64::MAX,
        touches(buffered, direction, side.counts, group as int),
        slots_at(state.store, (SideView { ids: state.ids, ..side }), group as int) == Ok::<
            Seq<Seq<EdgeView>>,
            ErrorKind,
        >(existing),
        merge(state, side, buffered, direction, group) is Ok,
        ({
            let next = merge_one(state, side, buffered, direction, group as int, existing);
            let after = merge(state, side, buffered, direction, group)->Ok_0;
            &&& merge(next, side, buffered, direction, group + 1) == Ok::<MergeView, ErrorKind>(
                after,
            )
            &&& extends(next.store, after.store)
            &&& forall|h: int| 0 <= h < group + 1 ==> #[trigger] edges::id_at(after.ids, h)
                == edges::id_at(next.ids, h)
            &&& rows_merged(next, side, buffered, direction, group + 1, row)
        }),
    ensures
        rows_merged(state, side, buffered, direction, group, row),
{
    let next = merge_one(state, side, buffered, direction, group as int, existing);
    let before_side = SideView { ids: state.ids, ..side };
    let next_side = SideView { ids: next.ids, ..side };
    let before = edges::stored(state.store, before_side, row);
    if before is Ok && row < layout::total_rows(side.counts) {
        let csr = CsrView { types: side.types, slots: existing };
        assert(groups::edges_lawful(csr, side.neighbor_rows)) by {
            if edges::id_at(state.ids, group as int) is Some {
                let id = edges::id_at(state.ids, group as int)->Some_0;
                let found = groups::csr_at(state.store, id, side.types, side.neighbor_rows)->Some_0;
                assert(found =~= csr);
            }
        }
        lemma_merged_lawful(existing, side, buffered, direction, group as int);
        if layout::lies_in(side.counts, group as int, row as int) {
            layout::lemma_one_group(side.counts, group as int, row as int);
            let slot = row - layout::rows_before(side.counts, group as int);
            assert(edges::id_at(next.ids, group as int) == Some(state.next));
            let merged = next.store[state.next]->Csr_0;
            assert(groups::csr_at(next.store, state.next, side.types, side.neighbor_rows) == Some(
                merged,
            ));
            assert(merged.slots[slot] == slot_of(existing, slot) + edges::incident(
                buffered,
                direction,
                row,
            ));
            assert(before == Ok::<Seq<EdgeView>, ErrorKind>(slot_of(existing, slot)));
            let now = edges::stored(next.store, next_side, row);
            assert(now == Ok::<Seq<EdgeView>, ErrorKind>(merged.slots[slot]));
            assert(merged.slots[slot] + Seq::<EdgeView>::empty() =~= merged.slots[slot]);
        } else {
            assert(extends(state.store, next.store));
            assert forall|h: int|
                layout::group_of(side.counts, row as int) == Some(h) implies edges::id_at(
                state.ids,
                h,
            ) == edges::id_at(next.ids, h) by {
                assert(layout::lies_in(side.counts, h, row as int));
                assert(h != group);
            }
            lemma_stored_kept(state.store, next.store, before_side, next_side, row);
        }
    }
}

/// Copies a group's slots into `rows` slots.
fn extended_copy(existing: &Vec<Vec<CsrEdge>>, rows: usize, types: &Vec<LogicalType>) -> (copy:
    CsrGroup)
    requires
        existing@.len() <= rows,
    ensures
        copy@.types == types@,
        copy@.slots == Seq::new(
            rows as nat,
            |slot: int|
                slot_of(existing@.map_values(|edges: Vec<CsrEdge>| groups::edges_of(edges@)), slot),
        ),
{
    let ghost shown = existing@.map_values(|edges: Vec<CsrEdge>| groups::edges_of(edges@));
    let mut slots: Vec<Vec<CsrEdge>> = Vec::new();
    while slots.len() < rows
        invariant
            slots@.len() <= rows,
            existing@.len() <= rows,
            shown == existing@.map_values(|edges: Vec<CsrEdge>| groups::edges_of(edges@)),
            forall|slot: int|
                0 <= slot < slots@.len() ==> groups::edges_of((#[trigger] slots@[slot])@)
                    == slot_of(shown, slot),
        decreases rows - slots@.len(),
    {
        let at: usize = slots.len();
        let copied: Vec<CsrEdge> = if at < existing.len() {
            duplicate_edges(&existing[at])
        } else {
            Vec::new()
        };
        assert(groups::edges_of(copied@) =~= slot_of(shown, at as int));
        slots.push(copied);
    }
    let copy = CsrGroup { types: duplicate_types(types), slots };
    assert(copy@.slots =~= Seq::new(rows as nat, |slot: int| slot_of(shown, slot)));
    copy
}

/// A copy of types.
pub(crate) fn duplicate_types(types: &Vec<LogicalType>) -> (copy: Vec<LogicalType>)
    ensures
        copy@ == types@,
{
    let mut copy: Vec<LogicalType> = Vec::new();
    let mut i: usize = 0;
    while i < types.len()
        invariant
            i <= types@.len(),
            copy@ == types@.subrange(0, i as int),
        decreases types@.len() - i,
    {
        copy.push(types[i]);
        assert(copy@ =~= types@.subrange(0, i + 1));
        i += 1;
    }
    assert(copy@ =~= types@);
    copy
}

/// Appends the edges of a group's rows to its slots.
pub(crate) fn push_all(
    group: &mut CsrGroup,
    buffered: &Vec<ScannedRelationship>,
    direction: Direction,
    first_row: u64,
) -> (result: DevonResult<()>)
    requires
        first_row + old(group)@.slots.len() <= u64::MAX,
        forall|i: int|
            0 <= i < buffered@.len() ==> groups::values_fit(
                old(group)@.types,
                (#[trigger] edges::relationships(buffered@)[i]).values,
            ),
    ensures
        result is Ok,
        final(group)@ == (CsrView {
            types: old(group)@.types,
            slots: merged_slots(
                old(group)@.slots,
                old(group)@.slots.len(),
                first_row as int,
                edges::relationships(buffered@),
                direction,
            ),
        }),
{
    let ghost before = group@;
    let ghost all = edges::relationships(buffered@);
    let rows: usize = group.row_count();
    let behind: u64 = first_row + rows as u64;
    let mut i: usize = 0;
    proof {
        assert(all.subrange(0, 0) =~= Seq::empty());
        let first = merged_slots(
            before.slots,
            before.slots.len(),
            first_row as int,
            all.subrange(0, 0),
            direction,
        );
        assert forall|slot: int| 0 <= slot < first.len() implies first[slot]
            == before.slots[slot] by {
            assert(first[slot] =~= before.slots[slot]);
        }
        assert(before.slots =~= first);
    }
    while i < buffered.len()
        invariant
            i <= buffered@.len(),
            before == old(group)@,
            all == edges::relationships(buffered@),
            rows == before.slots.len(),
            behind == first_row + rows,
            forall|k: int|
                0 <= k < buffered@.len() ==> groups::values_fit(
                    before.types,
                    (#[trigger] edges::relationships(buffered@)[k]).values,
                ),
            group@.types == before.types,
            group@.slots == merged_slots(
                before.slots,
                before.slots.len(),
                first_row as int,
                all.subrange(0, i as int),
                direction,
            ),
        decreases buffered@.len() - i,
    {
        let edge: &ScannedRelationship = &buffered[i];
        let (near_end, far_end): (u64, u64) = if direction == Direction::Out {
            (edge.from, edge.to)
        } else {
            (edge.to, edge.from)
        };
        let ghost part = all.subrange(0, i as int);
        let ghost next = all.subrange(0, i + 1);
        let ghost held = group@.slots;
        proof {
            assert(next.drop_last() =~= part);
            assert(next.last() == all[i as int]);
        }
        let ghost wanted = merged_slots(
            before.slots,
            before.slots.len(),
            first_row as int,
            next,
            direction,
        );
        if first_row <= near_end && near_end < behind {
            let slot: usize = (near_end - first_row) as usize;
            assert(groups::values_fit(before.types, all[i as int].values));
            match group.push_edge(slot, far_end, duplicate_values(edge.values.as_slice())) {
                Ok(()) => {},
                Err(error) => {
                    return Err(error);
                },
            }
            proof {
                let added = EdgeView { neighbor: far_end, values: all[i as int].values };
                assert forall|s: int| 0 <= s < wanted.len() implies wanted[s]
                    == group@.slots[s] by {
                    if s == slot {
                        assert(wanted[s] =~= held[s].push(added));
                    } else {
                        assert((first_row + s) as u64 != near_end);
                        assert(wanted[s] =~= held[s]);
                    }
                }
                assert(group@.slots =~= wanted);
            }
        } else {
            proof {
                assert forall|s: int| 0 <= s < wanted.len() implies wanted[s] == held[s] by {
                    assert((first_row + s) as u64 != near_end);
                    assert(wanted[s] =~= held[s]);
                }
                assert(group@.slots =~= wanted);
            }
        }
        i += 1;
    }
    assert(all.subrange(0, all.len() as int) =~= all);
    assert(group@ =~= CsrView {
        types: before.types,
        slots: merged_slots(
            before.slots,
            before.slots.len(),
            first_row as int,
            all,
            direction,
        ),
    });
    Ok(())
}

fn any_touches(
    buffered: &Vec<ScannedRelationship>,
    direction: Direction,
    first_row: u64,
    rows: usize,
) -> (any: bool)
    requires
        first_row + rows <= u64::MAX,
    ensures
        any == (exists|i: int|
            0 <= i < buffered@.len() && first_row <= #[trigger] edges::near(
                edges::relationships(buffered@)[i],
                direction,
            ) < first_row + rows),
{
    let behind: u64 = first_row + rows as u64;
    let ghost all = edges::relationships(buffered@);
    let mut i: usize = 0;
    while i < buffered.len()
        invariant
            i <= buffered@.len(),
            behind == first_row + rows,
            all == edges::relationships(buffered@),
            forall|k: int|
                0 <= k < i ==> !(first_row <= #[trigger] edges::near(all[k], direction) < behind),
        decreases buffered@.len() - i,
    {
        let near_end: u64 = if direction == Direction::Out {
            buffered[i].from
        } else {
            buffered[i].to
        };
        assert(near_end == edges::near(all[i as int], direction));
        if first_row <= near_end && near_end < behind {
            return true;
        }
        i += 1;
    }
    false
}

/// Puts a page id in its place.
fn put(ids: &mut Vec<u64>, group: usize, id: u64)
    ensures
        final(ids)@ == put_id(old(ids)@, group as int, id),
{
    let ghost before = ids@;
    if group < ids.len() {
        ids.set(group, id);
    } else {
        let held: usize = ids.len();
        while ids.len() < group
            invariant
                held == before.len(),
                held <= ids@.len() <= group,
                ids@ == before + Seq::new((ids@.len() - held) as nat, |i: int| 0u64),
            decreases group - ids@.len(),
        {
            let ghost shown = ids@;
            ids.push(0);
            assert(ids@ =~= before + Seq::new((ids@.len() - held) as nat, |i: int| 0u64));
        }
        ids.push(id);
        assert(ids@ =~= put_id(before, group as int, id));
    }
}

/// Merges the buffered edges into one side of a table.
pub(crate) fn merge_direction(
    store: &mut GroupStore,
    side: &mut Side,
    buffered: &Vec<ScannedRelationship>,
    direction: Direction,
) -> (result: DevonResult<()>)
    requires
        old(store).wf(),
        old(side).wf(),
        forall|i: int|
            0 <= i < buffered@.len() ==> groups::values_fit(
                old(side)@.types,
                (#[trigger] edges::relationships(buffered@)[i]).values,
            ),
    ensures
        final(store).wf(),
        final(side).wf(),
        final(side)@ == (SideView { ids: final(side)@.ids, ..old(side)@ }),
        extends(old(store)@, final(store)@),
        direction == Direction::Both && buffered@.len() > 0 ==> {
            &&& result matches Err(error) && error.kind_of() == ErrorKind::InvalidArgument
            &&& *final(store) == *old(store)
            &&& *final(side) == *old(side)
        },
        direction != Direction::Both || buffered@.len() == 0 ==> ({
            let start = MergeView {
                store: old(store)@,
                next: old(store).next_of(),
                ids: old(side)@.ids,
            };
            match (
                result,
                merge(start, old(side)@, edges::relationships(buffered@), direction, 0),
            ) {
                (Ok(()), Ok(after)) => {
                    &&& final(store)@ == after.store
                    &&& final(store).next_of() == after.next
                    &&& final(side)@.ids == after.ids
                },
                (Err(error), Err(kind)) => error.kind_of() == kind,
                _ => false,
            }
        }),
{
    if direction == Direction::Both && buffered.len() > 0 {
        return Err(invalid_argument("cannot materialize Both direction"));
    }
    let ghost all = edges::relationships(buffered@);
    let ghost first = side@;
    let ghost start = MergeView { store: store@, next: store.next_of(), ids: side@.ids };
    let groups_count: usize = side.layout.group_count();
    let mut group: usize = 0;
    while group < groups_count
        invariant
            direction != Direction::Both || buffered@.len() == 0,
            group <= groups_count == first.counts.len(),
            store.wf(),
            side.wf(),
            first == old(side)@,
            all == edges::relationships(buffered@),
            start == (MergeView {
                store: old(store)@,
                next: old(store).next_of(),
                ids: old(side)@.ids,
            }),
            forall|i: int|
                0 <= i < buffered@.len() ==> groups::values_fit(
                    first.types,
                    (#[trigger] edges::relationships(buffered@)[i]).values,
                ),
            side@ == (SideView { ids: side@.ids, ..first }),
            extends(old(store)@, store@),
            merge(start, first, all, direction, 0) == merge(
                MergeView { store: store@, next: store.next_of(), ids: side@.ids },
                first,
                all,
                direction,
                group as nat,
            ),
        decreases groups_count - group,
    {
        let rows: usize = side.layout.rows_in(group);
        let first_row: u64 = side.layout.start_of(group);
        let ghost here = MergeView { store: store@, next: store.next_of(), ids: side@.ids };
        let any: bool = any_touches(buffered, direction, first_row, rows);
        proof {
            assert(any == touches(all, direction, first.counts, group as int)) by {
                if any {
                    let i = choose|i: int|
                        0 <= i < buffered@.len() && first_row <= #[trigger] edges::near(
                            all[i],
                            direction,
                        ) < first_row + rows;
                    assert(layout::lies_in(
                        first.counts,
                        group as int,
                        edges::near(all[i], direction) as int,
                    ));
                }
            }
        }
        if any {
            let mut replacement: CsrGroup = match stored_group_id(&side.ids, group) {
                None => {
                    let none: Vec<Vec<CsrEdge>> = Vec::new();
                    let shown = Ghost(
                        none@.map_values(|edges: Vec<CsrEdge>| groups::edges_of(edges@)),
                    );
                    assert(shown@ =~= Seq::empty());
                    extended_copy(&none, rows, &side.types)
                },
                Some(id) => {
                    match store.read_checked(id, &side.types, side.neighbor_rows) {
                        Err(error) => {
                            return Err(error);
                        },
                        Ok(existing) => {
                            let held: usize = existing.row_count();
                            if held > rows {
                                return Err(more_rows_than_its_group(held, rows, group));
                            }
                            extended_copy(&existing.slots, rows, &side.types)
                        },
                    }
                },
            };
            let ghost existing = slots_at(
                store@,
                SideView { ids: side@.ids, ..first },
                group as int,
            )->Ok_0;
            assert(slots_at(store@, SideView { ids: side@.ids, ..first }, group as int) == Ok::<
                Seq<Seq<EdgeView>>,
                ErrorKind,
            >(existing));
            assert(replacement@.slots =~= Seq::new(
                rows as nat,
                |slot: int| slot_of(existing, slot),
            ));
            let ghost base = replacement@.slots;
            match push_all(&mut replacement, buffered, direction, first_row) {
                Ok(()) => {},
                Err(error) => {
                    return Err(error);
                },
            }
            let ghost merged = CsrView {
                types: first.types,
                slots: merged_slots(existing, rows as nat, first_row as int, all, direction),
            };
            proof {
                assert forall|slot: int| 0 <= slot < rows implies replacement@.slots[slot]
                    == merged.slots[slot] by {
                    assert(slot_of(base, slot) == slot_of(existing, slot));
                }
                assert(replacement@.slots =~= merged.slots);
                assert(replacement@ =~= merged);
            }
            match store.write(StoredGroup::Csr(replacement)) {
                Ok(id) => {
                    put(&mut side.ids, group, id);
                    proof {
                        let after = merge_one(here, first, all, direction, group as int, existing);
                        assert(store@ =~= after.store);
                        assert(side@.ids =~= after.ids);
                        assert(side@ =~= SideView { ids: side@.ids, ..first });
                        assert(extends(old(store)@, store@));
                    }
                },
                Err(error) => {
                    return Err(error);
                },
            }
        }
        group += 1;
    }
    Ok(())
}

} // verus!
