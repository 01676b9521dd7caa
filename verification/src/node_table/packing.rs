//! Packing rows into groups.

use vstd::prelude::*;

use crate::error::{DevonResult, ErrorKind};
use crate::groups;
use crate::groups::{GroupStore, GroupView, NodeGroup, NodeView, StoredGroup, NODE_GROUP_CAPACITY};
use crate::rel_table::merge::duplicate_types;
use crate::types;
use crate::types::{LogicalType, Value, ValueView};

verus! {

/// Whether a store has kept its groups.
pub open spec fn extends(old_store: Map<u64, GroupView>, new_store: Map<u64, GroupView>) -> bool {
    forall|id: u64| #[trigger]
        old_store.dom().contains(id) ==> new_store.dom().contains(id) && new_store[id]
            == old_store[id]
}

/// The rows of groups in order; none where one is not readable.
pub open spec fn rows_in(
    store: Map<u64, GroupView>,
    ids: Seq<u64>,
    types: Seq<LogicalType>,
) -> Option<Seq<Seq<ValueView>>>
    decreases ids.len(),
{
    if ids.len() == 0 {
        Some(Seq::empty())
    } else {
        match (
            rows_in(store, ids.drop_last(), types),
            groups::node_at(store, ids.last(), types),
        ) {
            (Some(before), Some(rows)) => Some(before + rows),
            _ => None,
        }
    }
}

/// Whether a group is full.
pub open spec fn is_full(store: Map<u64, GroupView>, id: u64, types: Seq<LogicalType>) -> bool {
    groups::node_at(store, id, types) is Some && groups::node_at(store, id, types)->Some_0.len()
        == NODE_GROUP_CAPACITY
}

/// Whether all of the first `n` groups are full.
pub open spec fn all_full(
    store: Map<u64, GroupView>,
    ids: Seq<u64>,
    types: Seq<LogicalType>,
    n: int,
) -> bool {
    forall|i: int|
        0 <= i < n ==> is_full(store, #[trigger] ids[i], types)
}

/// Groups keep their rows when a store grows.
pub proof fn lemma_rows_kept(
    old_store: Map<u64, GroupView>,
    new_store: Map<u64, GroupView>,
    ids: Seq<u64>,
    types: Seq<LogicalType>,
)
    requires
        extends(old_store, new_store),
        rows_in(old_store, ids, types) is Some,
    ensures
        rows_in(new_store, ids, types) == rows_in(old_store, ids, types),
    decreases ids.len(),
{
    if ids.len() > 0 {
        lemma_rows_kept(old_store, new_store, ids.drop_last(), types);
    }
}

/// One group more: its rows follow.
pub proof fn lemma_rows_pushed(
    store: Map<u64, GroupView>,
    ids: Seq<u64>,
    id: u64,
    types: Seq<LogicalType>,
)
    requires
        rows_in(store, ids, types) is Some,
        groups::node_at(store, id, types) is Some,
    ensures
        rows_in(store, ids.push(id), types) == Some(
            rows_in(store, ids, types)->Some_0 + groups::node_at(store, id, types)->Some_0,
        ),
{
    assert(ids.push(id).drop_last() =~= ids);
}

/// Appends rows.
pub(crate) fn append_rows(rows: &mut Vec<Vec<Value>>, more: Vec<Vec<Value>>)
    ensures
        groups::rows_of(final(rows)@) == groups::rows_of(old(rows)@) + groups::rows_of(more@),
{
    let ghost before = rows@;
    let mut more: Vec<Vec<Value>> = more;
    let ghost added = more@;
    rows.append(&mut more);
    assert(groups::rows_of(rows@) =~= groups::rows_of(before) + groups::rows_of(added));
}

/// Writes a group of rows.
pub(crate) fn write_group(store: &mut GroupStore, types: &Vec<LogicalType>, rows: Vec<Vec<Value>>) -> (
result: DevonResult<u64>)
    requires
        old(store).wf(),
        groups::rows_lawful(types@, groups::rows_of(rows@)),
    ensures
        final(store).wf(),
        extends(old(store)@, final(store)@),
        match result {
            Ok(id) => groups::node_at(final(store)@, id, types@) == Some(groups::rows_of(rows@)),
            Err(error) => error.kind_of() == ErrorKind::InvalidArgument && old(store).next_of()
                == u64::MAX && final(store).next_of() == u64::MAX,
        },
{
    let ghost before = store@;
    let ghost shown = NodeView { types: types@, rows: groups::rows_of(rows@) };
    let group = NodeGroup { types: duplicate_types(types), rows };
    assert(group@ =~= shown);
    store.write(StoredGroup::Node(group))
}

/// Writes full groups as long as there are rows for one.
pub(crate) fn write_full_groups(
    store: &mut GroupStore,
    types: &Vec<LogicalType>,
    ids: &mut Vec<u64>,
    rows: &mut Vec<Vec<Value>>,
) -> (result: DevonResult<()>)
    requires
        old(store).wf(),
        groups::rows_typed(types@, groups::rows_of(old(rows)@)),
        rows_in(old(store)@, old(ids)@, types@) is Some,
        all_full(old(store)@, old(ids)@, types@, old(ids)@.len() as int),
    ensures
        final(store).wf(),
        extends(old(store)@, final(store)@),
        match result {
            Ok(()) => {
                &&& final(rows)@.len() < NODE_GROUP_CAPACITY
                &&& groups::rows_typed(types@, groups::rows_of(final(rows)@))
                &&& rows_in(final(store)@, final(ids)@, types@) is Some
                &&& rows_in(final(store)@, final(ids)@, types@)->Some_0 + groups::rows_of(
                    final(rows)@,
                ) == rows_in(old(store)@, old(ids)@, types@)->Some_0 + groups::rows_of(old(rows)@)
                &&& all_full(final(store)@, final(ids)@, types@, final(ids)@.len() as int)
                &&& final(ids)@.len() >= old(ids)@.len()
                &&& forall|i: int| 0 <= i < old(ids)@.len()  ==> #[trigger] final(ids)@[i]
                    == old(ids)@[i]
            },
            Err(error) => error.kind_of() == ErrorKind::InvalidArgument && final(store).next_of()
                == u64::MAX,
        },
{
    let ghost want = rows_in(store@, ids@, types@)->Some_0 + groups::rows_of(rows@);
    let ghost first_store = store@;
    let ghost first_ids = ids@;
    while rows.len() >= NODE_GROUP_CAPACITY
        invariant
            store.wf(),
            first_store == old(store)@,
            first_ids == old(ids)@,
            extends(first_store, store@),
            groups::rows_typed(types@, groups::rows_of(rows@)),
            rows_in(store@, ids@, types@) is Some,
            rows_in(store@, ids@, types@)->Some_0 + groups::rows_of(rows@) == want,
            all_full(store@, ids@, types@, ids@.len() as int),
            ids@.len() >= first_ids.len(),
            forall|i: int| 0 <= i < first_ids.len() ==> #[trigger] ids@[i] == first_ids[i],
        decreases rows@.len(),
    {
        let ghost all = rows@;
        let ghost held = store@;
        let ghost known = ids@;
        let rest: Vec<Vec<Value>> = rows.split_off(NODE_GROUP_CAPACITY);
        let mut full: Vec<Vec<Value>> = rest;
        std::mem::swap(rows, &mut full);
        proof {
            assert(all =~= full@ + rows@);
            let shown = groups::rows_of(all);
            assert forall|i: int| 0 <= i < full@.len() implies groups::values_fit(
                types@,
                #[trigger] groups::rows_of(full@)[i],
            ) by {
                assert(shown[i] == groups::rows_of(full@)[i]);
            }
            assert forall|i: int| 0 <= i < rows@.len() implies groups::values_fit(
                types@,
                #[trigger] groups::rows_of(rows@)[i],
            ) by {
                assert(shown[i + full@.len()] == groups::rows_of(rows@)[i]);
            }
        }
        let ghost shown = groups::rows_of(full@);
        match write_group(store, types, full) {
            Ok(id) => {
                ids.push(id);
                proof {
                    lemma_rows_kept(held, store@, known, types@);
                    lemma_rows_pushed(store@, known, id, types@);
                    assert(groups::rows_of(all) =~= shown + groups::rows_of(rows@));
                    assert(rows_in(store@, ids@, types@)->Some_0 + groups::rows_of(rows@)
                        =~= rows_in(held, known, types@)->Some_0 + groups::rows_of(all));
                    assert(extends(first_store, store@)) by {
                        assert forall|k: u64| #[trigger] first_store.dom().contains(k) implies
                            store@.dom().contains(k) && store@[k] == first_store[k] by {
                            assert(held.dom().contains(k));
                        }
                    }
                    assert forall|i: int| 0 <= i < ids@.len() implies is_full(
                        store@,
                        #[trigger] ids@[i],
                        types@,
                    ) by {
                        if i < known.len() {
                            assert(is_full(held, known[i], types@));
                        }
                    }
                }
            },
            Err(error) => {
                proof {
                    assert forall|k: u64| #[trigger] first_store.dom().contains(k) implies
                        store@.dom().contains(k) && store@[k] == first_store[k] by {
                        assert(held.dom().contains(k));
                    }
                }
                return Err(error);
            },
        }
    }
    Ok(())
}

/// Takes the rows of the last group out where it is not full.
pub(crate) fn partial_group(store: &GroupStore, types: &Vec<LogicalType>, ids: &mut Vec<u64>) -> (
result: DevonResult<Vec<Vec<Value>>>)
    requires
        store.wf(),
        rows_in(store@, old(ids)@, types@) is Some,
        old(ids)@.len() > 0 ==> all_full(store@, old(ids)@, types@, old(ids)@.len() - 1),
    ensures
        match result {
            Ok(rows) => {
                &&& rows_in(store@, final(ids)@, types@) is Some
                &&& rows_in(store@, final(ids)@, types@)->Some_0 + groups::rows_of(rows@)
                    == rows_in(store@, old(ids)@, types@)->Some_0
                &&& all_full(store@, final(ids)@, types@, final(ids)@.len() as int)
                &&& groups::rows_typed(types@, groups::rows_of(rows@))
                &&& if old(ids)@.len() > 0 && groups::node_at(
                    store@,
                    old(ids)@.last(),
                    types@,
                )->Some_0.len() < NODE_GROUP_CAPACITY {
                    final(ids)@ == old(ids)@.drop_last()
                } else {
                    final(ids)@ == old(ids)@
                }
            },
            Err(_) => false,
        },
{
    let ghost before = ids@;
    let size: usize = ids.len();
    let mut held: Vec<Vec<Value>> = Vec::new();
    if size > 0 {
        match store.read_rows(ids[size - 1], types) {
            Ok(rows) => {
                if rows.len() < NODE_GROUP_CAPACITY {
                    held = rows;
                    ids.pop();
                    assert(ids@ =~= before.drop_last());
                    return Ok(held);
                }
            },
            Err(error) => {
                return Err(error);
            },
        }
    }
    assert(groups::rows_of(held@) =~= Seq::empty());
    assert(rows_in(store@, ids@, types@)->Some_0 + groups::rows_of(held@) =~= rows_in(
        store@,
        ids@,
        types@,
    )->Some_0);
    Ok(held)
}

/// Writes the rows behind full groups: full ones, then one of what is left.
pub(crate) fn finish_groups(
    store: &mut GroupStore,
    types: &Vec<LogicalType>,
    ids: &mut Vec<u64>,
    rows: Vec<Vec<Value>>,
) -> (result: DevonResult<()>)
    requires
        old(store).wf(),
        groups::rows_typed(types@, groups::rows_of(rows@)),
        rows_in(old(store)@, old(ids)@, types@) is Some,
        all_full(old(store)@, old(ids)@, types@, old(ids)@.len() as int),
    ensures
        final(store).wf(),
        extends(old(store)@, final(store)@),
        match result {
            Ok(()) => {
                &&& rows_in(final(store)@, final(ids)@, types@) == Some(
                    rows_in(old(store)@, old(ids)@, types@)->Some_0 + groups::rows_of(rows@),
                )
                &&& final(ids)@.len() > 0 ==> all_full(
                    final(store)@,
                    final(ids)@,
                    types@,
                    final(ids)@.len() - 1,
                )
                &&& final(ids)@.len() >= old(ids)@.len()
                &&& forall|i: int| 0 <= i < old(ids)@.len()  ==> #[trigger] final(ids)@[i]
                    == old(ids)@[i]
            },
            Err(error) => error.kind_of() == ErrorKind::InvalidArgument && final(store).next_of()
                == u64::MAX,
        },
{
    let ghost want = rows_in(store@, ids@, types@)->Some_0 + groups::rows_of(rows@);
    let ghost first_store = store@;
    let mut rows: Vec<Vec<Value>> = rows;
    match write_full_groups(store, types, ids, &mut rows) {
        Ok(()) => {},
        Err(error) => {
            return Err(error);
        },
    }
    if rows.len() > 0 {
        let ghost held = store@;
        let ghost known = ids@;
        let ghost shown = groups::rows_of(rows@);
        match write_group(store, types, rows) {
            Ok(id) => {
                ids.push(id);
                proof {
                    lemma_rows_kept(held, store@, known, types@);
                    lemma_rows_pushed(store@, known, id, types@);
                    assert forall|i: int| 0 <= i < ids@.len() - 1 implies is_full(
                        store@,
                        #[trigger] ids@[i],
                        types@,
                    ) by {
                        assert(is_full(held, known[i], types@));
                    }
                    assert forall|k: u64| #[trigger] first_store.dom().contains(k) implies
                        store@.dom().contains(k) && store@[k] == first_store[k] by {
                        assert(held.dom().contains(k));
                    }
                }
            },
            Err(error) => {
                proof {
                    assert forall|k: u64| #[trigger] first_store.dom().contains(k) implies
                        store@.dom().contains(k) && store@[k] == first_store[k] by {
                        assert(held.dom().contains(k));
                    }
                }
                return Err(error);
            },
        }
    } else {
        assert(groups::rows_of(rows@) =~= Seq::empty());
        assert(rows_in(store@, ids@, types@)->Some_0 =~= want);
    }
    Ok(())
}

} // verus!
