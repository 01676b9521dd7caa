//! What readers see of a chain: each table's changes in commit order.

use std::sync::Arc;

use vstd::prelude::*;

use crate::error::{corrupt, invalid_argument, DevonResult, ErrorKind};
use crate::groups;
use crate::keys;
use crate::keys::{KeyMap, KeyView, PkKey};
use crate::node_table::effects::{EffectsView, NodeDmlEffects};
use crate::overlay::chain;
use crate::overlay::chain::{commit_links_oldest_first, CommitLink};
use crate::overlay::delta;
use crate::overlay::delta::{CommitDelta, DeltaView, OverlayEdge};
use crate::overlay::{RelEndpointTombstones, TombstonesView};
use crate::picked;
use crate::rel_table::edges::RelationshipView;
use crate::text::{with_name, with_number};
use crate::types;
use crate::types::{duplicate_values, Value, ValueView};

verus! {

/// A change of one node.
#[derive(Debug)]
pub enum NodeOp<'a> {
    Update(&'a Vec<Value>),
    Delete(&'a Value),
    Insert(&'a Vec<Value>),
}

/// What a change of one node says.
pub enum OpView {
    Update(Seq<ValueView>),
    Delete(ValueView),
    Insert(Seq<ValueView>),
}

impl<'a> View for NodeOp<'a> {
    type V = OpView;

    open spec fn view(&self) -> OpView {
        match self {
            NodeOp::Update(row) => OpView::Update(types::views(row@)),
            NodeOp::Delete(key) => OpView::Delete(key@),
            NodeOp::Insert(row) => OpView::Insert(types::views(row@)),
        }
    }
}

/// What changes say.
pub open spec fn ops_shown<'a>(ops: Seq<NodeOp<'a>>) -> Seq<OpView> {
    ops.map_values(|op: NodeOp<'a>| op@)
}

/// The changes that a delta makes to a node table: updates, then deletes,
/// then inserts, so that a row inserted under a deleted key is a new one.
pub open spec fn ops_of(delta: DeltaView, table: Seq<char>) -> Seq<OpView> {
    delta::list_at(delta.node_updates, table).map_values(
        |row: Seq<ValueView>| OpView::Update(row),
    ) + delta::list_at(delta.node_deletes, table).map_values(|key: ValueView| OpView::Delete(key))
        + delta::list_at(delta.nodes, table).map_values(|row: Seq<ValueView>| OpView::Insert(row))
}

/// The changes that deltas make to a node table, in order.
pub open spec fn all_ops(list: Seq<DeltaView>, table: Seq<char>) -> Seq<OpView>
    decreases list.len(),
{
    if list.len() == 0 {
        Seq::empty()
    } else {
        all_ops(list.drop_last(), table) + ops_of(list.last(), table)
    }
}

/// The key that a change is about, if it has one.
pub open spec fn op_key(op: OpView, column: int) -> Option<KeyView> {
    match op {
        OpView::Update(row) => keys::row_key(row, column),
        OpView::Delete(key) => keys::key_of(key),
        OpView::Insert(row) => keys::row_key(row, column),
    }
}

fn push_ops<'a>(ops: &mut Vec<NodeOp<'a>>, delta: &'a CommitDelta, table: &str)
    requires
        delta.wf(),
    ensures
        ops_shown(final(ops)@) == ops_shown(old(ops)@) + ops_of(delta@, table@),
{
    let ghost before = ops_shown(ops@);
    let ghost updates = delta::list_at(delta@.node_updates, table@);
    let ghost deletes = delta::list_at(delta@.node_deletes, table@);
    let ghost inserts = delta::list_at(delta@.nodes, table@);
    match delta.node_updates.get(table) {
        Some(rows) => {
            assert(updates == groups::rows_of(rows@));
            let mut i: usize = 0;
            assert(before =~= before + updates.subrange(0, 0).map_values(
                |row: Seq<ValueView>| OpView::Update(row),
            ));
            while i < rows.len()
                invariant
                    i <= rows@.len(),
                    updates == groups::rows_of(rows@),
                    ops_shown(ops@) == before + updates.subrange(0, i as int).map_values(
                        |row: Seq<ValueView>| OpView::Update(row),
                    ),
                decreases rows@.len() - i,
            {
                let ghost listed = ops_shown(ops@);
                ops.push(NodeOp::Update(&rows[i]));
                proof {
                    assert(updates[i as int] == types::views(rows@[i as int]@));
                    assert(ops_shown(ops@) =~= listed.push(OpView::Update(updates[i as int])));
                    assert(ops_shown(ops@) =~= before + updates.subrange(0, i + 1).map_values(
                        |row: Seq<ValueView>| OpView::Update(row),
                    ));
                }
                i += 1;
            }
            assert(updates.subrange(0, updates.len() as int) =~= updates);
        },
        None => {
            assert(updates =~= Seq::empty());
            assert(ops_shown(ops@) =~= before + updates.map_values(
                |row: Seq<ValueView>| OpView::Update(row),
            ));
        },
    }
    let ghost second = ops_shown(ops@);
    match delta.node_deletes.get(table) {
        Some(values) => {
            assert(deletes == types::views(values@));
            let mut i: usize = 0;
            assert(second =~= second + deletes.subrange(0, 0).map_values(
                |key: ValueView| OpView::Delete(key),
            ));
            while i < values.len()
                invariant
                    i <= values@.len(),
                    deletes == types::views(values@),
                    ops_shown(ops@) == second + deletes.subrange(0, i as int).map_values(
                        |key: ValueView| OpView::Delete(key),
                    ),
                decreases values@.len() - i,
            {
                let ghost listed = ops_shown(ops@);
                ops.push(NodeOp::Delete(&values[i]));
                proof {
                    assert(deletes[i as int] == values@[i as int]@);
                    assert(ops_shown(ops@) =~= listed.push(OpView::Delete(deletes[i as int])));
                    assert(ops_shown(ops@) =~= second + deletes.subrange(0, i + 1).map_values(
                        |key: ValueView| OpView::Delete(key),
                    ));
                }
                i += 1;
            }
            assert(deletes.subrange(0, deletes.len() as int) =~= deletes);
        },
        None => {
            assert(deletes =~= Seq::empty());
            assert(ops_shown(ops@) =~= second + deletes.map_values(
                |key: ValueView| OpView::Delete(key),
            ));
        },
    }
    let ghost third = ops_shown(ops@);
    match delta.nodes.get(table) {
        Some(rows) => {
            assert(inserts == groups::rows_of(rows@));
            let mut i: usize = 0;
            assert(third =~= third + inserts.subrange(0, 0).map_values(
                |row: Seq<ValueView>| OpView::Insert(row),
            ));
            while i < rows.len()
                invariant
                    i <= rows@.len(),
                    inserts == groups::rows_of(rows@),
                    ops_shown(ops@) == third + inserts.subrange(0, i as int).map_values(
                        |row: Seq<ValueView>| OpView::Insert(row),
                    ),
                decreases rows@.len() - i,
            {
                let ghost listed = ops_shown(ops@);
                ops.push(NodeOp::Insert(&rows[i]));
                proof {
                    assert(inserts[i as int] == types::views(rows@[i as int]@));
                    assert(ops_shown(ops@) =~= listed.push(OpView::Insert(inserts[i as int])));
                    assert(ops_shown(ops@) =~= third + inserts.subrange(0, i + 1).map_values(
                        |row: Seq<ValueView>| OpView::Insert(row),
                    ));
                }
                i += 1;
            }
            assert(inserts.subrange(0, inserts.len() as int) =~= inserts);
        },
        None => {
            assert(inserts =~= Seq::empty());
            assert(ops_shown(ops@) =~= third + inserts.map_values(
                |row: Seq<ValueView>| OpView::Insert(row),
            ));
        },
    }
    assert(ops_shown(ops@) =~= before + ops_of(delta@, table@));
}

/// The changes that a chain makes to a node table, in order.
pub fn node_ops<'a>(head: &'a Option<Arc<CommitLink>>, table: &str) -> (ops: Vec<NodeOp<'a>>)
    requires
        chain::chain_wf(*head),
    ensures
        ops_shown(ops@) == all_ops(chain::deltas(chain::links(*head)), table@),
{
    let ghost list = chain::deltas(chain::links(*head));
    let links: Vec<&CommitLink> = commit_links_oldest_first(head);
    let mut ops: Vec<NodeOp<'a>> = Vec::new();
    let mut i: usize = 0;
    assert(ops_shown(ops@) =~= Seq::empty());
    assert(list.subrange(0, 0) =~= Seq::empty());
    while i < links.len()
        invariant
            i <= links@.len() == list.len(),
            list == chain::deltas(chain::links(*head)),
            chain::chain_wf(*head),
            forall|k: int|
                0 <= k < links@.len() ==> *(#[trigger] links@[k]) == chain::links(*head)[k],
            ops_shown(ops@) == all_ops(list.subrange(0, i as int), table@),
        decreases links@.len() - i,
    {
        proof {
            let next = list.subrange(0, i + 1);
            assert(next.drop_last() =~= list.subrange(0, i as int));
            assert(*links@[i as int] == chain::links(*head)[i as int]);
            assert(next.last() == links@[i as int].delta@);
        }
        let link: &'a CommitLink = links[i];
        push_ops(&mut ops, &link.delta, table);
        i += 1;
    }
    assert(list.subrange(0, list.len() as int) =~= list);
    ops
}

/// The net effect with one change more; a change without a key has none.
pub open spec fn effect_of(before: EffectsView, op: OpView, column: int) -> Option<EffectsView> {
    match op_key(op, column) {
        None => None,
        Some(key) => Some(
            match op {
                OpView::Update(row) => EffectsView {
                    updates: before.updates.insert(key, row),
                    tombstones: before.tombstones.remove(key),
                },
                OpView::Delete(_) => EffectsView {
                    updates: before.updates.remove(key),
                    tombstones: before.tombstones.insert(key),
                },
                OpView::Insert(_) => EffectsView {
                    updates: before.updates.remove(key),
                    tombstones: before.tombstones.remove(key),
                },
            },
        ),
    }
}

/// The net effect of the first `n` changes.
pub open spec fn effects_after(ops: Seq<OpView>, column: int, n: nat) -> Option<EffectsView>
    decreases n,
{
    if n == 0 {
        Some(EffectsView::none())
    } else {
        match effects_after(ops, column, (n - 1) as nat) {
            None => None,
            Some(before) => effect_of(before, ops[n - 1], column),
        }
    }
}

/// A change without a key is not made good by more changes.
proof fn lemma_effects_fail(ops: Seq<OpView>, column: int, at: nat, n: nat)
    requires
        at <= n,
        effects_after(ops, column, at) is None,
    ensures
        effects_after(ops, column, n) is None,
    decreases n,
{
    if at < n {
        lemma_effects_fail(ops, column, at, (n - 1) as nat);
    }
}

fn keyed_row(row: &Vec<Value>, column: usize, table: &str) -> (result: DevonResult<PkKey>)
    ensures
        match result {
            Ok(key) => keys::row_key(types::views(row@), column as int) == Some(key@),
            Err(error) => keys::row_key(types::views(row@), column as int) is None
                && error.kind_of() == ErrorKind::Corrupt,
        },
{
    if column < row.len() {
        PkKey::try_from(&row[column])
    } else {
        let head: String = with_name(
            "overlay row for node table `",
            table,
            "` has no primary-key column at index ",
        );
        Err(corrupt(with_number(head.as_str(), column as u64, "").as_str()))
    }
}

/// The net updates and deletes that a chain makes to a node table.
pub fn node_dml_effects(
    head: &Option<Arc<CommitLink>>,
    table: &str,
    primary_key_column: usize,
) -> (result: DevonResult<NodeDmlEffects>)
    requires
        chain::chain_wf(*head),
    ensures
        ({
            let ops = all_ops(chain::deltas(chain::links(*head)), table@);
            match (result, effects_after(ops, primary_key_column as int, ops.len())) {
                (Ok(effects), Some(after)) => effects.wf() && effects@ == after,
                (Err(error), None) => error.kind_of() == ErrorKind::Corrupt,
                _ => false,
            }
        }),
{
    let ops: Vec<NodeOp> = node_ops(head, table);
    let ghost shown = ops_shown(ops@);
    let mut effects = NodeDmlEffects::new();
    let mut i: usize = 0;
    while i < ops.len()
        invariant
            i <= ops@.len(),
            shown == ops_shown(ops@),
            shown == all_ops(chain::deltas(chain::links(*head)), table@),
            effects.wf(),
            effects_after(shown, primary_key_column as int, i as nat) == Some(effects@),
        decreases ops@.len() - i,
    {
        let ghost before = effects@;
        assert(shown[i as int] == ops@[i as int]@);
        let key: DevonResult<PkKey> = match &ops[i] {
            NodeOp::Update(row) => keyed_row(row, primary_key_column, table),
            NodeOp::Delete(value) => PkKey::try_from(value),
            NodeOp::Insert(row) => keyed_row(row, primary_key_column, table),
        };
        match key {
            Err(error) => {
                proof {
                    lemma_effects_fail(
                        shown,
                        primary_key_column as int,
                        (i + 1) as nat,
                        shown.len(),
                    );
                }
                return Err(error);
            },
            Ok(key) => {
                match &ops[i] {
                    NodeOp::Update(row) => {
                        effects.drop_deleted(&key);
                        effects.set_update(key, duplicate_values(row.as_slice()));
                    },
                    NodeOp::Delete(_) => {
                        effects.drop_update(&key);
                        effects.set_deleted(key);
                    },
                    NodeOp::Insert(_) => {
                        effects.drop_update(&key);
                        effects.drop_deleted(&key);
                    },
                }
            },
        }
        assert(effect_of(before, shown[i as int], primary_key_column as int)->Some_0 =~= effects@);
        i += 1;
    }
    Ok(effects)
}

/// No key is both updated and deleted.
pub proof fn law_effects_exclude(ops: Seq<OpView>, column: int, n: nat, key: KeyView)
    requires
        effects_after(ops, column, n) is Some,
    ensures
        ({
            let effects = effects_after(ops, column, n)->Some_0;
            !(effects.updates.contains_key(key) && effects.tombstones.contains(key))
        }),
    decreases n,
{
    if n > 0 {
        law_effects_exclude(ops, column, (n - 1) as nat, key);
    }
}

/// What a key's newest change says decides about the key.
pub proof fn law_newest_change_decides(
    ops: Seq<OpView>,
    column: int,
    n: nat,
    at: nat,
    key: KeyView,
)
    requires
        at < n <= ops.len(),
        effects_after(ops, column, n) is Some,
        op_key(ops[at as int], column) == Some(key),
        forall|i: int| at < i < n ==> op_key(#[trigger] ops[i], column) != Some(key),
    ensures
        ({
            let effects = effects_after(ops, column, n)->Some_0;
            match ops[at as int] {
                OpView::Update(row) => effects.updates.contains_key(key) && effects.updates[key]
                    == row && !effects.tombstones.contains(key),
                OpView::Delete(_) => effects.tombstones.contains(key)
                    && !effects.updates.contains_key(key),
                OpView::Insert(_) => !effects.tombstones.contains(key)
                    && !effects.updates.contains_key(key),
            }
        }),
    decreases n,
{
    if at + 1 < n {
        law_newest_change_decides(ops, column, (n - 1) as nat, at, key);
        assert(op_key(ops[n - 1], column) != Some(key));
    }
}

/// The places of inserted rows: the row at each place, nothing where it was
/// deleted, and the place of each key that has one.
#[verifier::ext_equal]
pub struct SlotsView {
    pub rows: Seq<Option<Seq<ValueView>>>,
    pub active: Map<KeyView, int>,
}

/// The places with one change more.
pub open spec fn slot_of(before: SlotsView, op: OpView, column: int) -> SlotsView {
    match (op, op_key(op, column)) {
        (OpView::Insert(row), Some(key)) => SlotsView {
            rows: (if before.active.contains_key(key) {
                before.rows.update(before.active[key], None)
            } else {
                before.rows
            }).push(Some(row)),
            active: before.active.insert(key, before.rows.len() as int),
        },
        (OpView::Insert(row), None) => SlotsView { rows: before.rows.push(Some(row)), ..before },
        (OpView::Update(row), Some(key)) => if before.active.contains_key(key) {
            SlotsView { rows: before.rows.update(before.active[key], Some(row)), ..before }
        } else {
            before
        },
        (OpView::Delete(_), Some(key)) => if before.active.contains_key(key) {
            SlotsView {
                rows: before.rows.update(before.active[key], None),
                active: before.active.remove(key),
            }
        } else {
            before
        },
        _ => before,
    }
}

/// The places after the first `n` changes.
pub open spec fn slots_after(ops: Seq<OpView>, column: int, n: nat) -> SlotsView
    decreases n,
{
    if n == 0 {
        SlotsView { rows: Seq::empty(), active: Map::empty() }
    } else {
        slot_of(slots_after(ops, column, (n - 1) as nat), ops[n - 1], column)
    }
}

/// The places of inserted rows in a chain.
pub open spec fn slots_in(
    head: Option<Arc<CommitLink>>,
    table: Seq<char>,
    column: int,
) -> SlotsView {
    let ops = all_ops(chain::deltas(chain::links(head)), table);
    slots_after(ops, column, ops.len())
}

/// A key that has a place has a row there with that key, and a visible row
/// with a key stands at the key's place.
pub open spec fn slots_sound(slots: SlotsView, column: int) -> bool {
    &&& forall|key: KeyView| #[trigger]
        slots.active.contains_key(key) ==> 0 <= slots.active[key] < slots.rows.len()
            && slots.rows[slots.active[key]] is Some && keys::row_key(
            slots.rows[slots.active[key]]->Some_0,
            column,
        ) == Some(key)
    &&& forall|at: int|
        0 <= at < slots.rows.len() && (#[trigger] slots.rows[at]) is Some && keys::row_key(
            slots.rows[at]->Some_0,
            column,
        ) is Some ==> slots.active.contains_key(keys::row_key(slots.rows[at]->Some_0, column)->Some_0)
            && slots.active[keys::row_key(slots.rows[at]->Some_0, column)->Some_0] == at
}

/// One change more keeps the places sound.
proof fn lemma_slot_sound(before: SlotsView, op: OpView, column: int)
    requires
        slots_sound(before, column),
    ensures
        slots_sound(slot_of(before, op, column), column),
{
    let after = slot_of(before, op, column);
    let named = op_key(op, column);
    assert forall|key: KeyView| #[trigger] after.active.contains_key(key) implies 0
        <= after.active[key] < after.rows.len() && after.rows[after.active[key]] is Some
        && keys::row_key(after.rows[after.active[key]]->Some_0, column) == Some(key) by {
        if named != Some(key) {
            assert(before.active.contains_key(key));
            if named is Some && before.active.contains_key(named->Some_0) {
                assert(before.active[key] != before.active[named->Some_0]);
            }
        }
    }
    assert forall|at: int|
        0 <= at < after.rows.len() && (#[trigger] after.rows[at]) is Some && keys::row_key(
            after.rows[at]->Some_0,
            column,
        ) is Some implies after.active.contains_key(
        keys::row_key(after.rows[at]->Some_0, column)->Some_0,
    ) && after.active[keys::row_key(after.rows[at]->Some_0, column)->Some_0] == at by {
        if at < before.rows.len() && after.rows[at] == before.rows[at] {
            let key = keys::row_key(before.rows[at]->Some_0, column)->Some_0;
            assert(before.active[key] == at);
        }
    }
}

/// The places that changes give are sound.
pub proof fn law_slots_sound(ops: Seq<OpView>, column: int, n: nat)
    ensures
        slots_sound(slots_after(ops, column, n), column),
    decreases n,
{
    if n > 0 {
        law_slots_sound(ops, column, (n - 1) as nat);
        lemma_slot_sound(slots_after(ops, column, (n - 1) as nat), ops[n - 1], column);
    }
}

/// What a key's newest change says is what its place shows: the inserted row, the updated row
/// where the key has a place, and nothing once it is deleted.
pub proof fn law_newest_row_is_shown(
    ops: Seq<OpView>,
    column: int,
    n: nat,
    at: nat,
    key: KeyView,
)
    requires
        at < n <= ops.len(),
        op_key(ops[at as int], column) == Some(key),
        forall|i: int| at < i < n ==> op_key(#[trigger] ops[i], column) != Some(key),
    ensures
        ({
            let slots = slots_after(ops, column, n);
            match ops[at as int] {
                OpView::Insert(row) => slots.active.contains_key(key)
                    && slots.rows[slots.active[key]] == Some(row),
                OpView::Update(row) => slots.active.contains_key(key)
                    ==> slots.rows[slots.active[key]] == Some(row),
                OpView::Delete(_) => !slots.active.contains_key(key),
            }
        }),
    decreases n,
{
    let before = slots_after(ops, column, (n - 1) as nat);
    law_slots_sound(ops, column, (n - 1) as nat);
    if at + 1 < n {
        law_newest_row_is_shown(ops, column, (n - 1) as nat, at, key);
        let named = op_key(ops[n - 1], column);
        assert(named != Some(key));
        if before.active.contains_key(key) && named is Some && before.active.contains_key(
            named->Some_0,
        ) {
            assert(before.active[key] != before.active[named->Some_0]);
        }
    }
}

/// How many of the changes from `from` to `to` are inserts.
pub open spec fn inserts_in(ops: Seq<OpView>, from: nat, to: nat) -> nat
    decreases to - from,
{
    if from >= to {
        0
    } else {
        inserts_in(ops, from, (to - 1) as nat) + if ops[to - 1] is Insert {
            1nat
        } else {
            0nat
        }
    }
}

/// Places are stable: later changes only add places behind them, one for
/// each insert. A deleted place stays empty, and a place that has a row has
/// only rows with the same key.
pub proof fn law_places_are_stable(ops: Seq<OpView>, column: int, n: nat, m: nat)
    requires
        n <= m <= ops.len(),
    ensures
        ({
            let before = slots_after(ops, column, n).rows;
            let after = slots_after(ops, column, m).rows;
            &&& after.len() == before.len() + inserts_in(ops, n, m)
            &&& forall|at: int|
                0 <= at < before.len() ==> {
                    &&& (#[trigger] before[at]) is None ==> after[at] is None
                    &&& before[at] is Some && after[at] is Some ==> keys::row_key(
                        after[at]->Some_0,
                        column,
                    ) == keys::row_key(before[at]->Some_0, column)
                }
        }),
    decreases m,
{
    if n < m {
        law_places_are_stable(ops, column, n, (m - 1) as nat);
        law_slots_sound(ops, column, (m - 1) as nat);
        let before = slots_after(ops, column, n).rows;
        let middle = slots_after(ops, column, (m - 1) as nat);
        let after = slots_after(ops, column, m).rows;
        assert forall|at: int| 0 <= at < before.len() implies {
            &&& (#[trigger] before[at]) is None ==> after[at] is None
            &&& before[at] is Some && after[at] is Some ==> keys::row_key(
                after[at]->Some_0,
                column,
            ) == keys::row_key(before[at]->Some_0, column)
        } by {
            if after[at] != middle.rows[at] {
                let key = op_key(ops[m - 1], column)->Some_0;
                assert(middle.active.contains_key(key));
                assert(middle.active[key] == at);
            }
        }
    }
}

/// The row that a slot shows.
pub open spec fn slot_shown<'a>(slot: Option<&'a Vec<Value>>) -> Option<Seq<ValueView>> {
    match slot {
        Some(row) => Some(types::views(row@)),
        None => None,
    }
}

/// What slots show.
pub open spec fn slots_shown<'a>(slots: Seq<Option<&'a Vec<Value>>>) -> Seq<
    Option<Seq<ValueView>>,
> {
    slots.map_values(|slot: Option<&'a Vec<Value>>| slot_shown(slot))
}

/// The active places as numbers.
pub open spec fn places(active: Map<KeyView, usize>) -> Map<KeyView, int> {
    active.map_values(|place: usize| place as int)
}

fn apply_node_op<'a>(
    rows: &mut Vec<Option<&'a Vec<Value>>>,
    active: &mut KeyMap,
    op: &NodeOp<'a>,
    column: usize,
)
    requires
        old(active).wf(),
        slots_sound(
            SlotsView { rows: slots_shown(old(rows)@), active: places(old(active)@) },
            column as int,
        ),
    ensures
        final(active).wf(),
        (SlotsView { rows: slots_shown(final(rows)@), active: places(final(active)@) }) == slot_of(
            SlotsView { rows: slots_shown(old(rows)@), active: places(old(active)@) },
            op@,
            column as int,
        ),
{
    let ghost before = SlotsView { rows: slots_shown(rows@), active: places(active@) };
    let ghost want = slot_of(before, op@, column as int);
    match op {
        NodeOp::Insert(row) => {
            let row: &'a Vec<Value> = *row;
            match PkKey::of_row(row, column) {
                Some(key) => {
                    let ghost named = key@;
                    match active.get(&key) {
                        Some(place) => {
                            assert(before.active.contains_key(named));
                            rows.set(place, None);
                        },
                        None => {
                            assert(!before.active.contains_key(named));
                        },
                    }
                    let end: usize = rows.len();
                    active.insert(key, end);
                    assert(places(active@) =~= want.active);
                },
                None => {},
            }
            rows.push(Some(row));
        },
        NodeOp::Update(row) => {
            let row: &'a Vec<Value> = *row;
            match PkKey::of_row(row, column) {
                Some(key) => match active.get(&key) {
                    Some(place) => {
                        assert(before.active.contains_key(key@));
                        rows.set(place, Some(row));
                    },
                    None => {
                        assert(!before.active.contains_key(key@));
                    },
                },
                None => {},
            }
        },
        NodeOp::Delete(value) => {
            match PkKey::of_value(value) {
                Some(key) => match active.remove(&key) {
                    Some(place) => {
                        assert(before.active.contains_key(key@));
                        rows.set(place, None);
                        assert(places(active@) =~= want.active);
                    },
                    None => {
                        assert(!before.active.contains_key(key@));
                        assert(places(active@) =~= before.active);
                    },
                },
                None => {},
            }
        },
    }
    assert(slots_shown(rows@) =~= want.rows);
}

/// The row at each place that a chain gave an inserted row; nothing where
/// the row was deleted.
pub fn effective_node_rows<'a>(
    head: &'a Option<Arc<CommitLink>>,
    table: &str,
    primary_key_column: usize,
) -> (rows: Vec<Option<&'a Vec<Value>>>)
    requires
        chain::chain_wf(*head),
    ensures
        slots_shown(rows@) == slots_in(*head, table@, primary_key_column as int).rows,
{
    let ops: Vec<NodeOp<'a>> = node_ops(head, table);
    let ghost shown = ops_shown(ops@);
    let mut rows: Vec<Option<&'a Vec<Value>>> = Vec::new();
    let mut active: KeyMap = KeyMap::new();
    let mut i: usize = 0;
    assert(slots_shown(rows@) =~= Seq::empty());
    assert(places(active@) =~= Map::empty());
    while i < ops.len()
        invariant
            i <= ops@.len(),
            shown == ops_shown(ops@),
            shown == all_ops(chain::deltas(chain::links(*head)), table@),
            active.wf(),
            (SlotsView { rows: slots_shown(rows@), active: places(active@) }) == slots_after(
                shown,
                primary_key_column as int,
                i as nat,
            ),
        decreases ops@.len() - i,
    {
        proof {
            law_slots_sound(shown, primary_key_column as int, i as nat);
            assert(shown[i as int] == ops@[i as int]@);
        }
        apply_node_op(&mut rows, &mut active, &ops[i], primary_key_column);
        i += 1;
    }
    rows
}

/// A place that an inserted row was given.
#[derive(Debug)]
pub struct OverlayNodeSlot<'a> {
    /// The place behind the stored rows.
    pub position: usize,
    /// The row there, nothing where it was deleted.
    pub row: Option<&'a Vec<Value>>,
}

/// Every place that a chain gave an inserted row, with the row.
pub fn node_slots_oldest_first<'a>(
    head: &'a Option<Arc<CommitLink>>,
    table: &str,
    primary_key_column: usize,
) -> (slots: Vec<OverlayNodeSlot<'a>>)
    requires
        chain::chain_wf(*head),
    ensures
        ({
            let want = slots_in(*head, table@, primary_key_column as int).rows;
            &&& slots@.len() == want.len()
            &&& forall|i: int|
                0 <= i < slots@.len() ==> (#[trigger] slots@[i]).position == i && slot_shown(
                    slots@[i].row,
                ) == want[i]
        }),
{
    let rows: Vec<Option<&'a Vec<Value>>> = effective_node_rows(head, table, primary_key_column);
    let ghost want = slots_in(*head, table@, primary_key_column as int).rows;
    let mut slots: Vec<OverlayNodeSlot<'a>> = Vec::new();
    let mut i: usize = 0;
    while i < rows.len()
        invariant
            i <= rows@.len(),
            slots_shown(rows@) == want,
            slots@.len() == i,
            forall|k: int|
                0 <= k < i ==> (#[trigger] slots@[k]).position == k && slot_shown(slots@[k].row)
                    == want[k],
        decreases rows@.len() - i,
    {
        assert(want[i as int] == slot_shown(rows@[i as int]));
        slots.push(OverlayNodeSlot { position: i, row: rows[i] });
        i += 1;
    }
    slots
}

/// The rows that are there, of places.
pub open spec fn there(rows: Seq<Option<Seq<ValueView>>>) -> Seq<Seq<ValueView>>
    decreases rows.len(),
{
    if rows.len() == 0 {
        Seq::empty()
    } else {
        match rows.last() {
            Some(row) => there(rows.drop_last()).push(row),
            None => there(rows.drop_last()),
        }
    }
}

/// The rows that are there are those of all places that have one, in order.
pub proof fn law_rows_there_are_all(rows: Seq<Option<Seq<ValueView>>>)
    ensures
        picked::gives(there(rows), rows, |slot: Option<Seq<ValueView>>| slot),
    decreases rows.len(),
{
    let of = |slot: Option<Seq<ValueView>>| slot;
    if rows.len() == 0 {
        picked::lemma_gives_none(rows, of);
    } else {
        law_rows_there_are_all(rows.drop_last());
        assert(rows =~= rows.drop_last().push(rows.last()));
        picked::lemma_gives_more(there(rows.drop_last()), rows.drop_last(), of, rows.last());
    }
}

/// What rows say.
pub open spec fn rows_shown<'a>(rows: Seq<&'a Vec<Value>>) -> Seq<Seq<ValueView>> {
    rows.map_values(|row: &'a Vec<Value>| types::views(row@))
}

/// The inserted rows of a chain that are there, in order.
pub fn node_rows_oldest_first<'a>(
    head: &'a Option<Arc<CommitLink>>,
    table: &str,
    primary_key_column: usize,
) -> (rows: Vec<&'a Vec<Value>>)
    requires
        chain::chain_wf(*head),
    ensures
        rows_shown(rows@) == there(slots_in(*head, table@, primary_key_column as int).rows),
{
    let slots: Vec<Option<&'a Vec<Value>>> = effective_node_rows(head, table, primary_key_column);
    let ghost want = slots_in(*head, table@, primary_key_column as int).rows;
    let mut rows: Vec<&'a Vec<Value>> = Vec::new();
    let mut i: usize = 0;
    assert(rows_shown(rows@) =~= Seq::empty());
    assert(want.subrange(0, 0) =~= Seq::empty());
    while i < slots.len()
        invariant
            i <= slots@.len(),
            slots_shown(slots@) == want,
            rows_shown(rows@) == there(want.subrange(0, i as int)),
        decreases slots@.len() - i,
    {
        let ghost before = rows_shown(rows@);
        proof {
            let next = want.subrange(0, i + 1);
            assert(next.drop_last() =~= want.subrange(0, i as int));
            assert(next.last() == slot_shown(slots@[i as int]));
        }
        match slots[i] {
            Some(row) => {
                rows.push(row);
                assert(rows_shown(rows@) =~= before.push(types::views(row@)));
            },
            None => {},
        }
        i += 1;
    }
    assert(want.subrange(0, want.len() as int) =~= want);
    rows
}

/// The edges that deltas insert into a relationship table, in order.
pub open spec fn all_edges(list: Seq<DeltaView>, table: Seq<char>) -> Seq<RelationshipView>
    decreases list.len(),
{
    if list.len() == 0 {
        Seq::empty()
    } else {
        all_edges(list.drop_last(), table) + delta::list_at(list.last().edges, table)
    }
}

/// The edges of two lists of deltas are those of the first, then those of the second, and those of
/// one delta are the ones that it inserts.
pub proof fn law_edges_come_delta_by_delta(
    a: Seq<DeltaView>,
    b: Seq<DeltaView>,
    one: DeltaView,
    table: Seq<char>,
)
    ensures
        all_edges(a + b, table) == all_edges(a, table) + all_edges(b, table),
        one.edges.contains_key(table) ==> all_edges(seq![one], table) == one.edges[table],
        !one.edges.contains_key(table) ==> all_edges(seq![one], table).len() == 0,
    decreases b.len(),
{
    let single = seq![one];
    assert(single.drop_last() =~= Seq::empty());
    assert(all_edges(single.drop_last(), table) =~= Seq::empty());
    assert(all_edges(single, table) =~= delta::list_at(one.edges, table));
    if b.len() == 0 {
        assert(a + b =~= a);
        assert(all_edges(a, table) + all_edges(b, table) =~= all_edges(a, table));
    } else {
        assert((a + b).drop_last() =~= a + b.drop_last());
        law_edges_come_delta_by_delta(a, b.drop_last(), one, table);
        assert(all_edges(a + b, table) =~= all_edges(a, table) + all_edges(b, table));
    }
}

/// The changes of two lists of deltas are those of the first, then those of the second. Those of
/// one delta are its updates, then its deletes, then its inserts, each in order.
pub proof fn law_changes_come_delta_by_delta(
    a: Seq<DeltaView>,
    b: Seq<DeltaView>,
    one: DeltaView,
    table: Seq<char>,
)
    ensures
        all_ops(a + b, table) == all_ops(a, table) + all_ops(b, table),
        ({
            let ops = all_ops(seq![one], table);
            let updates = delta::list_at(one.node_updates, table);
            let deletes = delta::list_at(one.node_deletes, table);
            let inserts = delta::list_at(one.nodes, table);
            &&& ops.len() == updates.len() + deletes.len() + inserts.len()
            &&& forall|i: int|
                0 <= i < updates.len() ==> ops[i] == OpView::Update(#[trigger] updates[i])
            &&& forall|i: int|
                0 <= i < deletes.len() ==> ops[updates.len() + i] == OpView::Delete(
                    #[trigger] deletes[i],
                )
            &&& forall|i: int|
                0 <= i < inserts.len() ==> ops[updates.len() + deletes.len() + i]
                    == OpView::Insert(#[trigger] inserts[i])
        }),
    decreases b.len(),
{
    let single = seq![one];
    assert(single.drop_last() =~= Seq::empty());
    assert(all_ops(single.drop_last(), table) =~= Seq::empty());
    assert(all_ops(single, table) =~= ops_of(one, table));
    if b.len() == 0 {
        assert(a + b =~= a);
        assert(all_ops(a, table) + all_ops(b, table) =~= all_ops(a, table));
    } else {
        assert((a + b).drop_last() =~= a + b.drop_last());
        law_changes_come_delta_by_delta(a, b.drop_last(), one, table);
        assert(all_ops(a + b, table) =~= all_ops(a, table) + all_ops(b, table));
    }
}

/// What edges say.
pub open spec fn edges_shown<'a>(edges: Seq<&'a OverlayEdge>) -> Seq<RelationshipView> {
    edges.map_values(|edge: &'a OverlayEdge| edge@)
}

/// The edges that a chain inserts into a relationship table, in order.
pub fn rel_edges_oldest_first<'a>(head: &'a Option<Arc<CommitLink>>, table: &str) -> (edges: Vec<
    &'a OverlayEdge,
>)
    requires
        chain::chain_wf(*head),
    ensures
        edges_shown(edges@) == all_edges(chain::deltas(chain::links(*head)), table@),
{
    let ghost list = chain::deltas(chain::links(*head));
    let links: Vec<&'a CommitLink> = commit_links_oldest_first(head);
    let mut edges: Vec<&'a OverlayEdge> = Vec::new();
    let mut i: usize = 0;
    assert(edges_shown(edges@) =~= Seq::empty());
    assert(list.subrange(0, 0) =~= Seq::empty());
    while i < links.len()
        invariant
            i <= links@.len() == list.len(),
            list == chain::deltas(chain::links(*head)),
            chain::chain_wf(*head),
            forall|k: int|
                0 <= k < links@.len() ==> *(#[trigger] links@[k]) == chain::links(*head)[k],
            edges_shown(edges@) == all_edges(list.subrange(0, i as int), table@),
        decreases links@.len() - i,
    {
        let ghost before = edges_shown(edges@);
        proof {
            let next = list.subrange(0, i + 1);
            assert(next.drop_last() =~= list.subrange(0, i as int));
            assert(*links@[i as int] == chain::links(*head)[i as int]);
            assert(next.last() == links@[i as int].delta@);
        }
        let link: &'a CommitLink = links[i];
        let ghost added = delta::list_at(link.delta@.edges, table@);
        match link.delta.edges.get(table) {
            Some(listed) => {
                assert(added == delta::edges_of(listed@));
                let mut k: usize = 0;
                assert(before =~= before + added.subrange(0, 0));
                while k < listed.len()
                    invariant
                        k <= listed@.len(),
                        added == delta::edges_of(listed@),
                        edges_shown(edges@) == before + added.subrange(0, k as int),
                    decreases listed@.len() - k,
                {
                    let ghost now = edges_shown(edges@);
                    edges.push(&listed[k]);
                    assert(edges_shown(edges@) =~= now.push(listed@[k as int]@));
                    assert(edges_shown(edges@) =~= before + added.subrange(0, k + 1));
                    k += 1;
                }
                assert(added.subrange(0, added.len() as int) =~= added);
            },
            None => {
                assert(before =~= before + added);
            },
        }
        i += 1;
    }
    assert(list.subrange(0, list.len() as int) =~= list);
    edges
}

/// The endpoints of a relationship table that deltas say are gone.
pub open spec fn all_gone(list: Seq<DeltaView>, table: Seq<char>) -> TombstonesView
    decreases list.len(),
{
    if list.len() == 0 {
        TombstonesView::none()
    } else {
        let before = all_gone(list.drop_last(), table);
        let more = delta::gone_at(list.last().rel_tombstones, table);
        TombstonesView { from: before.from.union(more.from), to: before.to.union(more.to) }
    }
}

/// An endpoint is gone exactly where one of the deltas says so: no later delta brings one back.
pub proof fn law_gone_stays_gone(list: Seq<DeltaView>, table: Seq<char>, offset: u64)
    ensures
        all_gone(list, table).from.contains(offset) <==> exists|k: int|
            0 <= k < list.len() && (#[trigger] list[k]).rel_tombstones.contains_key(table)
                && list[k].rel_tombstones[table].from.contains(offset),
        all_gone(list, table).to.contains(offset) <==> exists|k: int|
            0 <= k < list.len() && (#[trigger] list[k]).rel_tombstones.contains_key(table)
                && list[k].rel_tombstones[table].to.contains(offset),
    decreases list.len(),
{
    if list.len() > 0 {
        let rest = list.drop_last();
        law_gone_stays_gone(rest, table, offset);
        assert(forall|k: int| 0 <= k < rest.len() ==> #[trigger] rest[k] == list[k]);
        assert(forall|k: int| 0 <= k < rest.len() ==> #[trigger] list[k] == rest[k]);
        let last = list[list.len() - 1];
        assert(last == list.last());
    }
}

/// The endpoints of a relationship table that a chain says are gone.
pub fn rel_tombstones_oldest_first(head: &Option<Arc<CommitLink>>, table: &str) -> (gone:
    RelEndpointTombstones)
    requires
        chain::chain_wf(*head),
    ensures
        gone@ == all_gone(chain::deltas(chain::links(*head)), table@),
{
    let ghost list = chain::deltas(chain::links(*head));
    let links: Vec<&CommitLink> = commit_links_oldest_first(head);
    let mut gone = RelEndpointTombstones::new();
    let mut i: usize = 0;
    assert(list.subrange(0, 0) =~= Seq::empty());
    while i < links.len()
        invariant
            i <= links@.len() == list.len(),
            list == chain::deltas(chain::links(*head)),
            chain::chain_wf(*head),
            forall|k: int|
                0 <= k < links@.len() ==> *(#[trigger] links@[k]) == chain::links(*head)[k],
            gone@ == all_gone(list.subrange(0, i as int), table@),
        decreases links@.len() - i,
    {
        let ghost before = gone@;
        proof {
            let next = list.subrange(0, i + 1);
            assert(next.drop_last() =~= list.subrange(0, i as int));
            assert(*links@[i as int] == chain::links(*head)[i as int]);
            assert(next.last() == links@[i as int].delta@);
        }
        match links[i].delta.rel_tombstones.get(table) {
            Some(more) => {
                gone.union_with(more);
            },
            None => {
                assert(before.from =~= before.from.union(Set::empty()));
                assert(before.to =~= before.to.union(Set::empty()));
            },
        }
        i += 1;
    }
    assert(list.subrange(0, list.len() as int) =~= list);
    gone
}

/// The number of a row: its place behind the stored rows.
pub fn node_offset(checkpointed_total: u64, overlay_position: usize) -> (result: DevonResult<u64>)
    ensures
        match result {
            Ok(offset) => offset == checkpointed_total + overlay_position,
            Err(error) => checkpointed_total + overlay_position > u64::MAX && error.kind_of()
                == ErrorKind::InvalidArgument,
        },
{
    match checkpointed_total.checked_add(overlay_position as u64) {
        Some(offset) => Ok(offset),
        None => {
            let head: String = with_number(
                "checkpointed row total ",
                checkpointed_total,
                " plus overlay position ",
            );
            Err(
                invalid_argument(
                    with_number(
                        head.as_str(),
                        overlay_position as u64,
                        " exceeds u64::MAX",
                    ).as_str(),
                ),
            )
        },
    }
}

} // verus!
