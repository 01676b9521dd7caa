//! Checkpoints: buffered rows, updates and deletes become stored groups.

use vstd::prelude::*;

use crate::catalog;
use crate::catalog::{duplicate_ids, Catalog, CatalogView};
use crate::error::{corrupt, invalid_argument, DevonResult, ErrorKind};
use crate::groups;
use crate::groups::{GroupStore, GroupView, NODE_GROUP_CAPACITY};
use crate::keys;
use crate::keys::{KeyMap, KeyView};
use crate::node_table;
use crate::node_table::effects;
use crate::node_table::effects::{
    apply_dml_effects, normalize_buffered_rows, Applied, DeleteCompaction, EffectsView,
    NodeDmlEffects,
};
use crate::node_table::packing;
use crate::node_table::packing::{
    append_rows, finish_groups, partial_group, write_full_groups, write_group,
};
use crate::node_table::{
    column_types, ensure_catalog_schema, primary_key_column, read_group, NodeTable, NodeTableView,
};
use crate::schema;
use crate::text::with_name;
use crate::types::{LogicalType, Value, ValueView};

verus! {

/// Everything that a checkpoint applies to the stored rows.
#[verifier::ext_equal]
pub struct DmlView {
    pub types: Seq<LogicalType>,
    pub key_column: int,
    pub effects: EffectsView,
    pub shadowed: Set<KeyView>,
    pub compaction: DeleteCompaction,
}

/// The rows that are left of the groups so far, the effects that no row has
/// met yet, and whether a row went.
#[verifier::ext_equal]
pub struct WalkView {
    pub rows: Seq<Seq<ValueView>>,
    pub effects: EffectsView,
    pub deleted: bool,
}

/// What applying a checkpoint to the group behind a walk gives.
pub open spec fn group_applied(
    store: Map<u64, GroupView>,
    ids: Seq<u64>,
    dml: DmlView,
    before: WalkView,
    index: nat,
) -> Result<Applied, ErrorKind> {
    match node_table::group_at(store, ids, dml.types, index) {
        None => Err(ErrorKind::Corrupt),
        Some(rows) => effects::apply(
            rows,
            dml.key_column,
            before.effects,
            dml.shadowed,
            dml.compaction,
            rows.len(),
        ),
    }
}

/// Applies a checkpoint to the first `n` groups.
pub open spec fn walk(
    store: Map<u64, GroupView>,
    ids: Seq<u64>,
    dml: DmlView,
    n: nat,
) -> Result<WalkView, ErrorKind>
    decreases n,
{
    if n == 0 {
        Ok(WalkView { rows: Seq::empty(), effects: dml.effects, deleted: false })
    } else {
        match walk(store, ids, dml, (n - 1) as nat) {
            Err(kind) => Err(kind),
            Ok(before) => match group_applied(store, ids, dml, before, (n - 1) as nat) {
                Err(kind) => Err(kind),
                Ok(after) => Ok(
                    WalkView {
                        rows: before.rows + after.rows,
                        effects: after.effects,
                        deleted: before.deleted || after.deleted,
                    },
                ),
            },
        }
    }
}

/// Whether a group is written anew: a row of it changed, or a row of it or
/// of a group before it went.
pub open spec fn touched(
    store: Map<u64, GroupView>,
    ids: Seq<u64>,
    dml: DmlView,
    index: nat,
) -> bool {
    let before = walk(store, ids, dml, index)->Ok_0;
    let after = group_applied(store, ids, dml, before, index)->Ok_0;
    before.deleted || after.deleted || after.changed
}

/// The rows that a checkpoint leaves: those of the groups, those of the
/// buffer, and the effects that no row has met.
#[verifier::ext_equal]
pub struct OutcomeView {
    pub base: Seq<Seq<ValueView>>,
    pub deleted: bool,
    pub tail: Seq<Seq<ValueView>>,
    pub effects: EffectsView,
}

/// Applies a checkpoint to all groups, then to the newest buffered row of
/// each key.
pub open spec fn outcome(
    store: Map<u64, GroupView>,
    ids: Seq<u64>,
    dml: DmlView,
    newest: Seq<Seq<ValueView>>,
) -> Result<OutcomeView, ErrorKind> {
    match walk(store, ids, dml, ids.len()) {
        Err(kind) => Err(kind),
        Ok(base) => match effects::apply(
            newest,
            dml.key_column,
            base.effects,
            Set::empty(),
            dml.compaction,
            newest.len(),
        ) {
            Err(kind) => Err(kind),
            Ok(tail) => Ok(
                OutcomeView {
                    base: base.rows,
                    deleted: base.deleted,
                    tail: tail.rows,
                    effects: tail.effects,
                },
            ),
        },
    }
}

/// Everything that a checkpoint of a table reads.
#[verifier::ext_equal]
pub struct CheckpointJob {
    pub store: Map<u64, GroupView>,
    pub catalog: CatalogView,
    pub table: NodeTableView,
    pub effects: EffectsView,
    pub compaction: DeleteCompaction,
}

impl CheckpointJob {
    /// Whether there is nothing to do.
    pub open spec fn is_idle(self) -> bool {
        self.table.rows.len() == 0 && self.effects == EffectsView::none()
    }

    /// The page ids of the table's groups.
    pub open spec fn ids(self) -> Seq<u64> {
        node_table::ids_of(self.catalog, self.table.schema.name)
    }

    /// The primary key column.
    pub open spec fn key_column(self) -> int {
        node_table::key_column(self.table.schema.columns, 0)->Some_0 as int
    }

    /// What is applied to the stored rows.
    pub open spec fn dml(self) -> DmlView {
        DmlView {
            types: schema::types_of(self.table.schema.columns),
            key_column: self.key_column(),
            effects: self.effects,
            shadowed: effects::keys_of(self.table.rows, self.key_column()),
            compaction: self.compaction,
        }
    }

    /// The newest buffered row of each key.
    pub open spec fn newest(self) -> Seq<Seq<ValueView>> {
        effects::newest_from(self.table.rows, self.key_column(), 0)
    }

    /// The kind of error that the effects give.
    pub open spec fn effects_fault(self) -> Option<ErrorKind> {
        if self.effects.tombstones != Set::<KeyView>::empty() && self.compaction
            == DeleteCompaction::Forbidden {
            Some(ErrorKind::InvalidArgument)
        } else if node_table::key_column(self.table.schema.columns, 0) is None
            || !effects::effects_lawful(
            self.effects,
            self.table.schema.columns,
            self.key_column(),
        ) {
            Some(ErrorKind::Corrupt)
        } else {
            None
        }
    }

    /// What the checkpoint leaves of the rows, or the kind of error that
    /// stops it.
    pub open spec fn result(self) -> Result<OutcomeView, ErrorKind> {
        match node_table::schema_fault(self.catalog, self.table.schema) {
            Some(kind) => Err(kind),
            None => match self.effects_fault() {
                Some(kind) => Err(kind),
                None => if !effects::all_keyed(self.table.rows, self.key_column()) {
                    Err(ErrorKind::Corrupt)
                } else {
                    match outcome(self.store, self.ids(), self.dml(), self.newest()) {
                        Err(kind) => Err(kind),
                        Ok(left) => if left.effects != EffectsView::none() {
                            Err(ErrorKind::Corrupt)
                        } else {
                            Ok(left)
                        },
                    }
                },
            },
        }
    }

}

/// Whether the last group is not full and takes buffered rows in.
pub open spec fn refills(
    store: Map<u64, GroupView>,
    ids: Seq<u64>,
    dml: DmlView,
    left: OutcomeView,
    index: int,
) -> bool {
    &&& index == ids.len() - 1
    &&& left.tail.len() > 0
    &&& groups::node_at(store, ids[index], dml.types)->Some_0.len() < NODE_GROUP_CAPACITY
}

/// Whether groups that nothing touches keep their pages.
pub open spec fn pages_kept(
    store: Map<u64, GroupView>,
    ids: Seq<u64>,
    dml: DmlView,
    left: OutcomeView,
    new_ids: Seq<u64>,
) -> bool {
    forall|j: int|
        #![trigger ids[j]]
        0 <= j < ids.len() && !touched(store, ids, dml, j as nat) && !refills(
            store,
            ids,
            dml,
            left,
            j,
        ) ==> j < new_ids.len() && new_ids[j] == ids[j]
}

/// Once a walk fails, more groups do not change that.
proof fn lemma_walk_fails(
    store: Map<u64, GroupView>,
    ids: Seq<u64>,
    dml: DmlView,
    at: nat,
    n: nat,
)
    requires
        at <= n,
        walk(store, ids, dml, at) is Err,
    ensures
        walk(store, ids, dml, n) == walk(store, ids, dml, at),
    decreases n,
{
    if at < n {
        lemma_walk_fails(store, ids, dml, at, (n - 1) as nat);
    }
}

/// A walk keeps the updates typed.
proof fn lemma_walk_typed(store: Map<u64, GroupView>, ids: Seq<u64>, dml: DmlView, n: nat)
    requires
        forall|key: KeyView| #[trigger]
            dml.effects.updates.contains_key(key) ==> groups::values_fit(
                dml.types,
                dml.effects.updates[key],
            ),
        walk(store, ids, dml, n) is Ok,
    ensures
        forall|key: KeyView| #[trigger]
            walk(store, ids, dml, n)->Ok_0.effects.updates.contains_key(key) ==> groups::values_fit(
                dml.types,
                walk(store, ids, dml, n)->Ok_0.effects.updates[key],
            ),
    decreases n,
{
    if n > 0 {
        lemma_walk_typed(store, ids, dml, (n - 1) as nat);
        let before = walk(store, ids, dml, (n - 1) as nat)->Ok_0;
        let rows = node_table::group_at(store, ids, dml.types, (n - 1) as nat)->Some_0;
        effects::lemma_apply_typed(
            rows,
            dml.key_column,
            before.effects,
            dml.shadowed,
            dml.compaction,
            rows.len(),
            dml.types,
        );
    }
}

/// Rows of columns are rows of their types.
proof fn lemma_row_typed(columns: Seq<schema::ColumnView>, row: Seq<ValueView>)
    requires
        schema::row_fits(columns, row),
    ensures
        groups::values_fit(schema::types_of(columns), row),
{
    let kinds = schema::types_of(columns);
    assert forall|i: int| 0 <= i < row.len() implies (#[trigger] row[i]).fits_type(kinds[i]) by {
        assert(row[i].fits_type(columns[i].ty));
    }
}

/// The newest rows are rows.
proof fn lemma_newest_typed(
    rows: Seq<Seq<ValueView>>,
    key_column: int,
    from: nat,
    types: Seq<LogicalType>,
)
    requires
        groups::rows_typed(types, rows),
    ensures
        groups::rows_typed(types, effects::newest_from(rows, key_column, from)),
    decreases rows.len() - from,
{
    if from < rows.len() {
        lemma_newest_typed(rows, key_column, from + 1, types);
        let rest = effects::newest_from(rows, key_column, from + 1);
        let all = effects::newest_from(rows, key_column, from);
        assert forall|i: int| 0 <= i < all.len() implies groups::values_fit(
            types,
            #[trigger] all[i],
        ) by {
            if all.len() > rest.len() {
                if i == 0 {
                    assert(all[i] == rows[from as int]);
                } else {
                    assert(all[i] == rest[i - 1]);
                }
            }
        }
    }
}

/// The groups that a walk has written so far, and the rows that wait.
struct Walked {
    ids: Vec<u64>,
    waiting: Option<Vec<Vec<Value>>>,
}

impl Walked {
    spec fn waiting_rows(self) -> Seq<Seq<ValueView>> {
        match self.waiting {
            Some(rows) => groups::rows_of(rows@),
            None => Seq::empty(),
        }
    }

    /// Groups and waiting rows together are the rows of the walk; the groups
    /// are full, up to the last where no rows wait.
    spec fn holds(
        self,
        store: Map<u64, GroupView>,
        first_store: Map<u64, GroupView>,
        old_ids: Seq<u64>,
        dml: DmlView,
        n: nat,
    ) -> bool {
        let done = walk(first_store, old_ids, dml, n);
        &&& done is Ok
        &&& packing::rows_in(store, self.ids@, dml.types) is Some
        &&& packing::rows_in(store, self.ids@, dml.types)->Some_0 + self.waiting_rows()
            == done->Ok_0.rows
        &&& groups::rows_typed(dml.types, self.waiting_rows())
        &&& self.waiting is Some == done->Ok_0.deleted
        &&& self.waiting is None ==> self.ids@.len() == n
        &&& self.waiting is Some || n < old_ids.len() ==> packing::all_full(
            store,
            self.ids@,
            dml.types,
            self.ids@.len() as int,
        )
        &&& self.ids@.len() > 0 ==> packing::all_full(
            store,
            self.ids@,
            dml.types,
            self.ids@.len() - 1,
        )
        &&& forall|j: int|
            #![trigger old_ids[j]]
            0 <= j < n && !touched(first_store, old_ids, dml, j as nat) ==> j < self.ids@.len()
                && self.ids@[j] == old_ids[j]
    }
}

/// Takes one group's rows into a walk.
fn take_group(
    store: &mut GroupStore,
    walked: Walked,
    left: Vec<Vec<Value>>,
    changed: bool,
    deleted: bool,
    old_id: u64,
    types: &Vec<LogicalType>,
    Ghost(scene): Ghost<(Map<u64, GroupView>, Seq<u64>, DmlView, nat)>,
) -> (result: DevonResult<Walked>)
    requires
        old(store).wf(),
        packing::extends(scene.0, old(store)@),
        scene.2.types == types@,
        scene.3 < scene.1.len(),
        old_id == scene.1[scene.3 as int],
        walked.holds(old(store)@, scene.0, scene.1, scene.2, scene.3),
        groups::rows_lawful(types@, groups::rows_of(left@)),
        !deleted && scene.3 + 1 < scene.1.len() ==> left@.len() == NODE_GROUP_CAPACITY,
        !changed ==> !deleted && groups::node_at(old(store)@, old_id, types@) == Some(
            groups::rows_of(left@),
        ),
        ({
            let before = walk(scene.0, scene.1, scene.2, scene.3)->Ok_0;
            match group_applied(scene.0, scene.1, scene.2, before, scene.3) {
                Ok(after) => after.rows == groups::rows_of(left@) && after.changed == changed
                    && after.deleted == deleted,
                Err(_) => false,
            }
        }),
    ensures
        final(store).wf(),
        packing::extends(scene.0, final(store)@),
        match result {
            Ok(next) => next.holds(final(store)@, scene.0, scene.1, scene.2, scene.3 + 1),
            Err(error) => error.kind_of() == ErrorKind::InvalidArgument && final(store).next_of()
                == u64::MAX,
        },
{
    let ghost (first, old_ids, dml, i) = scene;
    let ghost held = store@;
    let ghost known = walked;
    let ghost kept = groups::rows_of(left@);
    let ghost after = walk(first, old_ids, dml, (i + 1) as nat)->Ok_0;
    let mut ids: Vec<u64> = walked.ids;
    let mut waiting: Option<Vec<Vec<Value>>> = walked.waiting;
    match waiting {
        Some(pending) => {
            let mut pending: Vec<Vec<Value>> = pending;
            let ghost waited = groups::rows_of(pending@);
            append_rows(&mut pending, left);
            assert(groups::rows_typed(types@, groups::rows_of(pending@))) by {
                lemma_typed_joined(types@, waited, kept);
            }
            let ghost known_ids = ids@;
            match write_full_groups(store, types, &mut ids, &mut pending) {
                Ok(()) => {},
                Err(error) => {
                    proof {
                        lemma_extends(first, held, store@);
                    }
                    return Err(error);
                },
            }
            proof {
                lemma_extends(first, held, store@);
                assert(packing::rows_in(store@, ids@, types@)->Some_0 + groups::rows_of(
                    pending@,
                ) =~= after.rows);
            }
            waiting = Some(pending);
        },
        None => {
            if deleted {
                proof {
                    assert(packing::rows_in(store@, ids@, types@)->Some_0 + kept
                        =~= after.rows);
                }
                waiting = Some(left);
            } else {
                let ghost known_ids = ids@;
                let id: u64 = if changed {
                    match write_group(store, types, left) {
                        Ok(id) => id,
                        Err(error) => {
                            proof {
                                lemma_extends(first, held, store@);
                            }
                            return Err(error);
                        },
                    }
                } else {
                    old_id
                };
                ids.push(id);
                waiting = None;
                proof {
                    lemma_extends(first, held, store@);
                    assert(groups::node_at(store@, id, types@) == Some(kept));
                    packing::lemma_rows_kept(held, store@, known_ids, types@);
                    packing::lemma_rows_pushed(store@, known_ids, id, types@);
                    assert(packing::rows_in(store@, ids@, types@)->Some_0
                        + Seq::<Seq<ValueView>>::empty() =~= after.rows);
                    assert forall|k: int| 0 <= k < known_ids.len() implies packing::is_full(
                        store@,
                        #[trigger] ids@[k],
                        types@,
                    ) by {
                        assert(packing::is_full(held, known_ids[k], types@));
                    }
                }
            }
        },
    }
    let walked = Walked { ids, waiting };
    proof {
        assert forall|j: int|
            #![trigger old_ids[j]]
            0 <= j < i + 1 && !touched(first, old_ids, dml, j as nat) implies j
            < walked.ids@.len() && walked.ids@[j] == old_ids[j] by {
            if j < i {
                assert(j < known.ids@.len() && known.ids@[j] == old_ids[j]);
            }
        }
    }
    Ok(walked)
}

/// Writes the stored groups anew where a row changed or went.
fn rewrite_persisted_groups(
    store: &mut GroupStore,
    old_ids: &Vec<u64>,
    types: &Vec<LogicalType>,
    key_column: usize,
    effects: &mut NodeDmlEffects,
    shadowed: &KeyMap,
    compaction: DeleteCompaction,
) -> (result: DevonResult<Walked>)
    requires
        old(store).wf(),
        old(effects).wf(),
        shadowed.wf(),
        forall|key: KeyView| #[trigger]
            old(effects)@.updates.contains_key(key) ==> groups::values_fit(
                types@,
                old(effects)@.updates[key],
            ),
    ensures
        final(store).wf(),
        final(effects).wf(),
        packing::extends(old(store)@, final(store)@),
        ({
            let dml = DmlView {
                types: types@,
                key_column: key_column as int,
                effects: old(effects)@,
                shadowed: shadowed@.dom(),
                compaction,
            };
            match (result, walk(old(store)@, old_ids@, dml, old_ids@.len())) {
                (Ok(walked), Ok(done)) => {
                    &&& walked.holds(
                        final(store)@,
                        old(store)@,
                        old_ids@,
                        dml,
                        old_ids@.len(),
                    )
                    &&& final(effects)@ == done.effects
                },
                (Err(error), Ok(_)) => error.kind_of() == ErrorKind::InvalidArgument && final(
                    store
                ).next_of() == u64::MAX,
                (Err(error), Err(kind)) => error.kind_of() == kind || (error.kind_of()
                    == ErrorKind::InvalidArgument && final(store).next_of() == u64::MAX),
                _ => false,
            }
        }),
{
    let ghost dml = DmlView {
        types: types@,
        key_column: key_column as int,
        effects: effects@,
        shadowed: shadowed@.dom(),
        compaction,
    };
    let ghost first = store@;
    let mut present: Vec<bool> = Vec::new();
    while present.len() < old_ids.len()
        invariant
            store.wf(),
            present@.len() <= old_ids@.len(),
            forall|k: int|
                0 <= k < present@.len() ==> #[trigger] present@[k] == store@.dom().contains(
                    old_ids@[k],
                ),
        decreases old_ids@.len() - present@.len(),
    {
        present.push(store.contains(old_ids[present.len()]));
    }
    let mut walked = Walked { ids: Vec::new(), waiting: None };
    let mut i: usize = 0;
    assert(packing::rows_in(store@, walked.ids@, types@)->Some_0 + walked.waiting_rows()
        =~= Seq::empty());
    while i < old_ids.len()
        invariant
            i <= old_ids@.len(),
            store.wf(),
            effects.wf(),
            shadowed.wf(),
            first == old(store)@,
            present@.len() == old_ids@.len(),
            forall|k: int|
                0 <= k < present@.len() ==> #[trigger] present@[k] == first.dom().contains(
                    old_ids@[k],
                ),
            packing::extends(first, store@),
            dml == (DmlView {
                types: types@,
                key_column: key_column as int,
                effects: old(effects)@,
                shadowed: shadowed@.dom(),
                compaction,
            }),
            forall|key: KeyView| #[trigger]
                dml.effects.updates.contains_key(key) ==> groups::values_fit(
                    dml.types,
                    dml.effects.updates[key],
                ),
            walked.holds(store@, first, old_ids@, dml, i as nat),
            walk(first, old_ids@, dml, i as nat)->Ok_0.effects == effects@,
        decreases old_ids@.len() - i,
    {
        let ghost before = walk(first, old_ids@, dml, i as nat)->Ok_0;
        if !present[i] {
            proof {
                lemma_walk_fails(first, old_ids@, dml, (i + 1) as nat, old_ids@.len());
            }
            return Err(corrupt("node group references a missing directory page"));
        }
        let rows: Vec<Vec<Value>> = match read_group(store, old_ids, types, i) {
            Ok(rows) => rows,
            Err(error) => {
                proof {
                    lemma_walk_fails(first, old_ids@, dml, (i + 1) as nat, old_ids@.len());
                }
                return Err(error);
            },
        };
        let ghost shown = groups::rows_of(rows@);
        let applied: DevonResult<(Vec<Vec<Value>>, bool, bool)> = apply_dml_effects(
            &rows,
            key_column,
            effects,
            shadowed,
            compaction,
        );
        let (left, changed, deleted): (Vec<Vec<Value>>, bool, bool) = match applied {
            Ok(found) => found,
            Err(error) => {
                proof {
                    lemma_walk_fails(first, old_ids@, dml, (i + 1) as nat, old_ids@.len());
                }
                return Err(error);
            },
        };
        proof {
            lemma_walk_typed(first, old_ids@, dml, i as nat);
            effects::lemma_apply_typed(
                shown,
                dml.key_column,
                before.effects,
                dml.shadowed,
                dml.compaction,
                shown.len(),
                dml.types,
            );
            assert(shown.subrange(0, shown.len() as int) =~= shown);
        }
        walked = match take_group(
            store,
            walked,
            left,
            changed,
            deleted,
            old_ids[i],
            types,
            Ghost((first, old_ids@, dml, i as nat)),
        ) {
            Ok(next) => next,
            Err(error) => {
                return Err(error);
            },
        };
        i += 1;
    }
    Ok(walked)
}

/// A store that grew twice has grown.
proof fn lemma_extends(
    a: Map<u64, GroupView>,
    b: Map<u64, GroupView>,
    c: Map<u64, GroupView>,
)
    requires
        packing::extends(a, b),
        packing::extends(b, c),
    ensures
        packing::extends(a, c),
{
    assert forall|id: u64| #[trigger] a.dom().contains(id) implies c.dom().contains(id) && c[id]
        == a[id] by {
        assert(b.dom().contains(id));
    }
}

/// Typed rows behind typed rows are typed.
proof fn lemma_typed_joined(
    types: Seq<LogicalType>,
    a: Seq<Seq<ValueView>>,
    b: Seq<Seq<ValueView>>,
)
    requires
        groups::rows_typed(types, a),
        groups::rows_typed(types, b),
    ensures
        groups::rows_typed(types, a + b),
{
    let all = a + b;
    assert forall|i: int| 0 <= i < all.len() implies groups::values_fit(types, #[trigger] all[i]) by {
        if i < a.len() {
            assert(all[i] == a[i]);
        } else {
            assert(all[i] == b[i - a.len()]);
        }
    }
}

/// Groups that are full up to the last are read in order.
proof fn lemma_packed(
    store: Map<u64, GroupView>,
    ids: Seq<u64>,
    types: Seq<LogicalType>,
    n: nat,
)
    requires
        n <= ids.len(),
        packing::rows_in(store, ids, types) is Some,
        ids.len() > 0 ==> packing::all_full(store, ids, types, ids.len() - 1),
    ensures
        node_table::stored_rows(store, ids, types, n) == packing::rows_in(
            store,
            ids.subrange(0, n as int),
            types,
        ),
    decreases n,
{
    if n > 0 {
        lemma_packed(store, ids, types, (n - 1) as nat);
        let part = ids.subrange(0, n as int);
        assert(part.drop_last() =~= ids.subrange(0, n - 1));
        assert(part.last() == ids[n - 1]);
        lemma_one_readable(store, ids, types, n - 1);
        if n < ids.len() {
            assert(packing::is_full(store, ids[n - 1], types));
        }
    } else {
        assert(ids.subrange(0, 0) =~= Seq::empty());
    }
}

/// Where all groups are readable, each is.
proof fn lemma_one_readable(
    store: Map<u64, GroupView>,
    ids: Seq<u64>,
    types: Seq<LogicalType>,
    at: int,
)
    requires
        0 <= at < ids.len(),
        packing::rows_in(store, ids, types) is Some,
    ensures
        groups::node_at(store, ids[at], types) is Some,
    decreases ids.len(),
{
    if at < ids.len() - 1 {
        assert(ids.drop_last()[at] == ids[at]);
        lemma_one_readable(store, ids.drop_last(), types, at);
    }
}

/// Writes the stored groups anew where a row changed or went, and the newest
/// buffered rows behind them; the page ids of the groups.
fn materialize_rows_with_dml(
    store: &mut GroupStore,
    old_ids: &Vec<u64>,
    types: &Vec<LogicalType>,
    key_column: usize,
    effects: &mut NodeDmlEffects,
    shadowed: &KeyMap,
    newest: &Vec<Vec<Value>>,
    delete_compaction: DeleteCompaction,
) -> (result: DevonResult<Vec<u64>>)
    requires
        old(store).wf(),
        old(effects).wf(),
        shadowed.wf(),
        groups::rows_typed(types@, groups::rows_of(newest@)),
        forall|key: KeyView| #[trigger]
            old(effects)@.updates.contains_key(key) ==> groups::values_fit(
                types@,
                old(effects)@.updates[key],
            ),
    ensures
        final(store).wf(),
        final(effects).wf(),
        packing::extends(old(store)@, final(store)@),
        ({
            let dml = DmlView {
                types: types@,
                key_column: key_column as int,
                effects: old(effects)@,
                shadowed: shadowed@.dom(),
                compaction: delete_compaction,
            };
            match (result, outcome(old(store)@, old_ids@, dml, groups::rows_of(newest@))) {
                (Ok(ids), Ok(left)) => {
                    &&& packing::rows_in(final(store)@, ids@, types@) == Some(
                        left.base + left.tail,
                    )
                    &&& ids@.len() > 0 ==> packing::all_full(
                        final(store)@,
                        ids@,
                        types@,
                        ids@.len() - 1,
                    )
                    &&& pages_kept(old(store)@, old_ids@, dml, left, ids@)
                    &&& final(effects)@ == left.effects
                },
                (Err(error), Ok(_)) => error.kind_of() == ErrorKind::InvalidArgument
                    && final(store).next_of() == u64::MAX,
                (Err(error), Err(kind)) => error.kind_of() == kind || (error.kind_of()
                    == ErrorKind::InvalidArgument && final(store).next_of() == u64::MAX),
                _ => false,
            }
        }),
{
    let ghost dml = DmlView {
        types: types@,
        key_column: key_column as int,
        effects: effects@,
        shadowed: shadowed@.dom(),
        compaction: delete_compaction,
    };
    let ghost first = store@;
    let walked: Walked = match rewrite_persisted_groups(
        store,
        old_ids,
        types,
        key_column,
        effects,
        shadowed,
        delete_compaction,
    ) {
        Ok(walked) => walked,
        Err(error) => {
            return Err(error);
        },
    };
    let ghost base = walk(first, old_ids@, dml, old_ids@.len())->Ok_0;
    let none: KeyMap = KeyMap::new();
    assert(none@.dom() =~= Set::<KeyView>::empty());
    let (tail, _changed, _deleted): (Vec<Vec<Value>>, bool, bool) = match apply_dml_effects(
        newest,
        key_column,
        effects,
        &none,
        delete_compaction,
    ) {
        Ok(found) => found,
        Err(error) => {
            return Err(error);
        },
    };
    let ghost left = outcome(first, old_ids@, dml, groups::rows_of(newest@))->Ok_0;
    let ghost tail_rows = groups::rows_of(tail@);
    proof {
        lemma_walk_typed(first, old_ids@, dml, old_ids@.len());
        let rows = groups::rows_of(newest@);
        effects::lemma_apply_typed(
            rows,
            dml.key_column,
            base.effects,
            Set::empty(),
            dml.compaction,
            rows.len(),
            types@,
        );
        assert(left.tail == tail_rows);
    }
    let ghost held = store@;
    let ghost known = walked;
    let mut ids: Vec<u64> = walked.ids;
    let refill: bool = tail.len() > 0;
    match walked.waiting {
        Some(pending) => {
            let mut pending: Vec<Vec<Value>> = pending;
            let ghost waited = groups::rows_of(pending@);
            append_rows(&mut pending, tail);
            proof {
                lemma_typed_joined(types@, waited, tail_rows);
            }
            match finish_groups(store, types, &mut ids, pending) {
                Ok(()) => {},
                Err(error) => {
                    proof {
                        lemma_extends(first, held, store@);
                    }
                    return Err(error);
                },
            }
            proof {
                lemma_extends(first, held, store@);
                assert(packing::rows_in(store@, ids@, types@)->Some_0 =~= left.base + left.tail);
            }
        },
        None => {
            if refill {
                let pending: Vec<Vec<Value>> = match partial_group(store, types, &mut ids) {
                    Ok(rows) => rows,
                    Err(error) => {
                        return Err(error);
                    },
                };
                let mut pending: Vec<Vec<Value>> = pending;
                let ghost waited = groups::rows_of(pending@);
                let ghost kept_ids = ids@;
                append_rows(&mut pending, tail);
                proof {
                    lemma_typed_joined(types@, waited, tail_rows);
                }
                match finish_groups(store, types, &mut ids, pending) {
                    Ok(()) => {},
                    Err(error) => {
                        proof {
                            lemma_extends(first, held, store@);
                        }
                        return Err(error);
                    },
                }
                proof {
                    lemma_extends(first, held, store@);
                    assert(packing::rows_in(store@, ids@, types@)->Some_0 =~= left.base
                        + left.tail);
                }
            } else {
                proof {
                    assert(tail_rows =~= Seq::empty());
                    assert(packing::rows_in(store@, ids@, types@)->Some_0 =~= left.base
                        + left.tail);
                }
            }
        },
    }
    proof {
        assert forall|j: int|
            #![trigger old_ids@[j]]
            0 <= j < old_ids@.len() && !touched(first, old_ids@, dml, j as nat) && !refills(
                first,
                old_ids@,
                dml,
                left,
                j,
            ) implies j < ids@.len() && ids@[j] == old_ids@[j] by {
            assert(j < known.ids@.len() && known.ids@[j] == old_ids@[j]);
            lemma_untouched_kept(first, held, old_ids@, dml, j as nat);
        }
    }
    Ok(ids)
}

impl NodeTable {
    /// Stores every buffered row.
    pub fn checkpoint(&mut self, store: &mut GroupStore, catalog: &mut Catalog) -> (result:
        DevonResult<()>)
        requires
            old(self).wf(),
            old(store).wf(),
        ensures
            final(self).wf(),
            final(store).wf(),
            packing::extends(old(store)@, final(store)@),
            ({
                let job = CheckpointJob {
                    store: old(store)@,
                    catalog: old(catalog)@,
                    table: old(self)@,
                    effects: EffectsView::none(),
                    compaction: DeleteCompaction::Forbidden,
                };
                checkpointed(
                    job,
                    result,
                    final(store).next_of(),
                    (CheckpointJob {
                        store: final(store)@,
                        catalog: final(catalog)@,
                        table: final(self)@,
                        ..job
                    }),
                )
            }),
    {
        self.checkpoint_with_dml(
            store,
            catalog,
            NodeDmlEffects::new(),
            DeleteCompaction::Forbidden,
        )
    }

    /// Stores every buffered row, with updates and deletes applied: an
    /// update takes its row's place, and deletes need `Permitted`.
    pub fn checkpoint_with_dml(
        &mut self,
        store: &mut GroupStore,
        catalog: &mut Catalog,
        effects: NodeDmlEffects,
        delete_compaction: DeleteCompaction,
    ) -> (result: DevonResult<()>)
        requires
            old(self).wf(),
            old(store).wf(),
            effects.wf(),
        ensures
            final(self).wf(),
            final(store).wf(),
            packing::extends(old(store)@, final(store)@),
            ({
                let job = CheckpointJob {
                    store: old(store)@,
                    catalog: old(catalog)@,
                    table: old(self)@,
                    effects: effects@,
                    compaction: delete_compaction,
                };
                checkpointed(
                    job,
                    result,
                    final(store).next_of(),
                    (CheckpointJob {
                        store: final(store)@,
                        catalog: final(catalog)@,
                        table: final(self)@,
                        ..job
                    }),
                )
            }),
    {
        let ghost job = CheckpointJob {
            store: store@,
            catalog: catalog@,
            table: self@,
            effects: effects@,
            compaction: delete_compaction,
        };
        let idle: bool = self.buffered_rows.len() == 0 && effects.no_updates()
            && effects.no_tombstones();
        proof {
            assert(idle == job.is_idle()) by {
                if idle {
                    assert(effects@ =~= EffectsView::none());
                }
            }
        }
        if idle {
            return Ok(());
        }
        match ensure_catalog_schema(&self.schema, catalog) {
            Ok(()) => {},
            Err(error) => {
                return Err(error);
            },
        }
        if !effects.no_tombstones() && delete_compaction == DeleteCompaction::Forbidden {
            return Err(
                invalid_argument(
                    with_name(
                        "delete compaction for node table `",
                        self.schema.name.as_str(),
                        "` was not affirmed; removing a row may shift load-bearing node offsets",
                    ).as_str(),
                ),
            );
        }
        let key_column: usize = match primary_key_column(&self.schema.columns) {
            Some(at) => at,
            None => {
                return Err(
                    corrupt(
                        with_name(
                            "node table `",
                            self.schema.name.as_str(),
                            "` has no primary-key column",
                        ).as_str(),
                    ),
                );
            },
        };
        if !effects.are_lawful(&self.schema, key_column) {
            return Err(effects.fault(&self.schema, key_column));
        }
        let types: Vec<LogicalType> = column_types(&self.schema.columns);
        let (newest, shadowed): (Vec<Vec<Value>>, KeyMap) = match normalize_buffered_rows(
            &self.buffered_rows,
            key_column,
        ) {
            Ok(found) => found,
            Err(error) => {
                return Err(error);
            },
        };
        let old_ids: Vec<u64> = match catalog.table_groups(self.schema.name.as_str()) {
            Some(ids) => duplicate_ids(ids),
            None => Vec::new(),
        };
        let ghost dml = job.dml();
        let ghost first = store@;
        proof {
            assert(old_ids@ == job.ids());
            assert(dml =~= DmlView {
                types: types@,
                key_column: key_column as int,
                effects: effects@,
                shadowed: shadowed@.dom(),
                compaction: delete_compaction,
            });
            assert forall|key: KeyView| #[trigger] effects@.updates.contains_key(key) implies groups::values_fit(
                types@,
                effects@.updates[key],
            ) by {
                lemma_row_typed(self@.schema.columns, effects@.updates[key]);
            }
            assert forall|i: int| 0 <= i < self@.rows.len() implies groups::values_fit(
                types@,
                #[trigger] self@.rows[i],
            ) by {
                assert(schema::row_fits(self.schema@.columns, self@.rows[i]));
                lemma_row_typed(self@.schema.columns, self@.rows[i]);
            }
            lemma_newest_typed(self@.rows, key_column as int, 0, types@);
        }
        let mut effects: NodeDmlEffects = effects;
        let ids: Vec<u64> = match materialize_rows_with_dml(
            store,
            &old_ids,
            &types,
            key_column,
            &mut effects,
            &shadowed,
            &newest,
            delete_compaction,
        ) {
            Ok(ids) => ids,
            Err(error) => {
                return Err(error);
            },
        };
        let ghost left = outcome(first, old_ids@, dml, job.newest())->Ok_0;
        let consumed: bool = effects.no_updates() && effects.no_tombstones();
        proof {
            assert(consumed == (left.effects == EffectsView::none())) by {
                if consumed {
                    assert(effects@ =~= EffectsView::none());
                }
            }
        }
        if !consumed {
            return Err(effects.unmet(self.schema.name.as_str()));
        }
        let ghost new_ids = ids@;
        proof {
            lemma_packed(store@, new_ids, types@, new_ids.len());
            assert(new_ids.subrange(0, new_ids.len() as int) =~= new_ids);
        }
        match catalog.set_table_groups(self.schema.name.as_str(), ids) {
            Ok(()) => {},
            Err(error) => {
                return Err(error);
            },
        }
        proof {
            catalog::law_groups_read_back(job.catalog, job.table.schema.name, new_ids);
        }
        self.buffered_rows = Vec::new();
        proof {
            assert(self@ =~= NodeTableView { rows: Seq::empty(), ..job.table });
            let rows = left.base + left.tail;
            assert(rows + Seq::<Seq<ValueView>>::empty() =~= rows);
        }
        Ok(())
    }
}

/// A group that is not written anew is read from the grown store as before.
proof fn lemma_untouched_kept(
    first: Map<u64, GroupView>,
    held: Map<u64, GroupView>,
    ids: Seq<u64>,
    dml: DmlView,
    at: nat,
)
    requires
        packing::extends(first, held),
        at < ids.len(),
        walk(first, ids, dml, ids.len()) is Ok,
    ensures
        groups::node_at(held, ids[at as int], dml.types) == groups::node_at(
            first,
            ids[at as int],
            dml.types,
        ),
        groups::node_at(first, ids[at as int], dml.types) is Some,
{
    if walk(first, ids, dml, at + 1) is Err {
        lemma_walk_fails(first, ids, dml, at + 1, ids.len());
    }
}

/// What a checkpoint does: where it succeeds the table's rows are those that
/// updates and deletes leave, none is buffered, and a group that nothing
/// touches keeps its page.
pub open spec fn checkpointed(
    job: CheckpointJob,
    result: DevonResult<()>,
    next: u64,
    after: CheckpointJob,
) -> bool {
    match result {
        Ok(()) => if job.is_idle() {
            after == job
        } else {
            &&& job.result() is Ok
            &&& after.table == (NodeTableView { rows: Seq::empty(), ..job.table })
            &&& after.catalog == catalog::with_groups(
                job.catalog,
                job.table.schema.name,
                after.ids(),
            )
            &&& node_table::scan_of(after.store, after.catalog, after.table) == Some(
                job.result()->Ok_0.base + job.result()->Ok_0.tail,
            )
            &&& pages_kept(job.store, job.ids(), job.dml(), job.result()->Ok_0, after.ids())
        },
        Err(error) => {
            &&& !job.is_idle()
            &&& after.catalog == job.catalog
            &&& after.table == job.table
            &&& {
                ||| job.result() matches Err(kind) && error.kind_of() == kind
                ||| error.kind_of() == ErrorKind::InvalidArgument && next == u64::MAX
            }
        },
    }
}

/// Without effects, rows whose keys are not shadowed stay as they are.
proof fn lemma_apply_nothing(
    rows: Seq<Seq<ValueView>>,
    key_column: int,
    shadowed: Set<KeyView>,
    compaction: DeleteCompaction,
    n: nat,
)
    requires
        n <= rows.len(),
        key_column >= 0,
        effects::apply(rows, key_column, EffectsView::none(), shadowed, compaction, n) is Ok,
        forall|i: int|
            0 <= i < n ==> (keys::row_key(#[trigger] rows[i], key_column) matches Some(key)
                ==> !shadowed.contains(key)),
    ensures
        effects::apply(rows, key_column, EffectsView::none(), shadowed, compaction, n) == Ok::<
            Applied,
            ErrorKind,
        >(
            (Applied {
                rows: rows.subrange(0, n as int),
                changed: false,
                deleted: false,
                effects: EffectsView::none(),
            }),
        ),
    decreases n,
{
    if n == 0 {
        assert(rows.subrange(0, 0) =~= Seq::empty());
    } else {
        lemma_apply_nothing(rows, key_column, shadowed, compaction, (n - 1) as nat);
        assert(rows.subrange(0, n as int) =~= rows.subrange(0, n - 1).push(rows[n - 1]));
        assert(keys::row_key(rows[n - 1], key_column) is Some);
    }
}

/// Without effects, a walk past rows that are not shadowed gives the stored
/// rows.
proof fn lemma_walk_nothing(store: Map<u64, GroupView>, ids: Seq<u64>, dml: DmlView, n: nat)
    requires
        n <= ids.len(),
        dml.key_column >= 0,
        dml.effects == EffectsView::none(),
        walk(store, ids, dml, n) is Ok,
        forall|i: int|
            0 <= i < walk_rows(store, ids, dml, n).len() ==> (keys::row_key(
                #[trigger] walk_rows(store, ids, dml, n)[i],
                dml.key_column,
            ) matches Some(key) ==> !dml.shadowed.contains(key)),
    ensures
        node_table::stored_rows(store, ids, dml.types, n) == Some(walk_rows(store, ids, dml, n)),
        walk(store, ids, dml, n) == Ok::<WalkView, ErrorKind>(
            (WalkView {
                rows: walk_rows(store, ids, dml, n),
                effects: EffectsView::none(),
                deleted: false,
            }),
        ),
    decreases n,
{
    if n > 0 {
        let m = (n - 1) as nat;
        let rows = node_table::group_at(store, ids, dml.types, m)->Some_0;
        let all = walk_rows(store, ids, dml, n);
        let part = walk_rows(store, ids, dml, m);
        assert(all == part + rows);
        assert forall|i: int| 0 <= i < part.len() implies (keys::row_key(
            #[trigger] part[i],
            dml.key_column,
        ) matches Some(key) ==> !dml.shadowed.contains(key)) by {
            assert(all[i] == part[i]);
        }
        lemma_walk_nothing(store, ids, dml, m);
        assert forall|i: int| 0 <= i < rows.len() implies (keys::row_key(
            #[trigger] rows[i],
            dml.key_column,
        ) matches Some(key) ==> !dml.shadowed.contains(key)) by {
            assert(all[part.len() + i] == rows[i]);
        }
        lemma_apply_nothing(
            rows,
            dml.key_column,
            dml.shadowed,
            dml.compaction,
            rows.len(),
        );
        assert(rows.subrange(0, rows.len() as int) =~= rows);
    }
}

/// The rows of the first `n` groups as they are stored.
pub open spec fn walk_rows(
    store: Map<u64, GroupView>,
    ids: Seq<u64>,
    dml: DmlView,
    n: nat,
) -> Seq<Seq<ValueView>>
    decreases n,
{
    if n == 0 {
        Seq::empty()
    } else {
        walk_rows(store, ids, dml, (n - 1) as nat) + node_table::group_at(
            store,
            ids,
            dml.types,
            (n - 1) as nat,
        )->Some_0
    }
}

/// Stored rows are the rows of the groups.
proof fn lemma_walk_rows(store: Map<u64, GroupView>, ids: Seq<u64>, dml: DmlView, n: nat)
    requires
        node_table::stored_rows(store, ids, dml.types, n) is Some,
    ensures
        node_table::stored_rows(store, ids, dml.types, n) == Some(walk_rows(store, ids, dml, n)),
    decreases n,
{
    if n > 0 {
        lemma_walk_rows(store, ids, dml, (n - 1) as nat);
    }
}

/// Whether no two rows have the same key.
pub open spec fn keys_differ(rows: Seq<Seq<ValueView>>, key_column: int) -> bool {
    forall|i: int, j: int|
        0 <= i < j < rows.len() ==> keys::row_key(#[trigger] rows[i], key_column) is None
            || keys::row_key(rows[i], key_column) != keys::row_key(#[trigger] rows[j], key_column)
}

/// Where keys differ every row is its key's newest.
proof fn lemma_newest_all(rows: Seq<Seq<ValueView>>, key_column: int, from: nat)
    requires
        from <= rows.len(),
        keys_differ(rows, key_column),
        effects::all_keyed(rows, key_column),
    ensures
        effects::newest_from(rows, key_column, from) == rows.subrange(
            from as int,
            rows.len() as int,
        ),
    decreases rows.len() - from,
{
    if from < rows.len() {
        lemma_newest_all(rows, key_column, from + 1);
        assert(rows.subrange(from as int, rows.len() as int) =~= seq![rows[from as int]]
            + rows.subrange(from as int + 1, rows.len() as int));
        let key = keys::row_key(rows[from as int], key_column)->Some_0;
        assert(keys::row_key(rows[from as int], key_column) is Some);
        if effects::key_from(rows, key_column, from as int + 1, key) {
            let j = choose|j: int|
                from + 1 <= j < rows.len() && keys::row_key(#[trigger] rows[j], key_column) == Some(
                    key,
                );
            assert(keys::row_key(rows[j], key_column) == Some(key));
        }
    } else {
        assert(rows.subrange(from as int, rows.len() as int) =~= Seq::empty());
    }
}

/// A checkpoint without updates and deletes of a table in which no two rows
/// share a key leaves the rows that a scan gave before it.
pub proof fn law_checkpoint_keeps_scan(job: CheckpointJob)
    requires
        job.effects == EffectsView::none(),
        job.result() is Ok,
        node_table::scan_of(job.store, job.catalog, job.table) matches Some(rows) && keys_differ(
            rows,
            job.key_column(),
        ),
    ensures
        node_table::scan_of(job.store, job.catalog, job.table) == Some(
            job.result()->Ok_0.base + job.result()->Ok_0.tail,
        ),
{
    let rows = node_table::scan_of(job.store, job.catalog, job.table)->Some_0;
    let ids = job.ids();
    let dml = job.dml();
    let stored = node_table::stored_rows(job.store, ids, dml.types, ids.len())->Some_0;
    lemma_walk_rows(job.store, ids, dml, ids.len());
    assert(rows == stored + job.table.rows);
    assert forall|i: int| 0 <= i < stored.len() implies (keys::row_key(
        #[trigger] stored[i],
        dml.key_column,
    ) matches Some(key) ==> !dml.shadowed.contains(key)) by {
        if keys::row_key(stored[i], dml.key_column) is Some {
            let key = keys::row_key(stored[i], dml.key_column)->Some_0;
            if dml.shadowed.contains(key) {
                let j = choose|j: int|
                    0 <= j < job.table.rows.len() && keys::row_key(
                        #[trigger] job.table.rows[j],
                        job.key_column(),
                    ) == Some(key);
                assert(rows[i] == stored[i]);
                assert(rows[stored.len() + j] == job.table.rows[j]);
            }
        }
    }
    lemma_walk_nothing(job.store, ids, dml, ids.len());
    assert(keys_differ(job.table.rows, job.key_column())) by {
        assert forall|i: int, j: int| 0 <= i < j < job.table.rows.len() implies keys::row_key(
            #[trigger] job.table.rows[i],
            job.key_column(),
        ) is None || keys::row_key(job.table.rows[i], job.key_column()) != keys::row_key(
            #[trigger] job.table.rows[j],
            job.key_column(),
        ) by {
            assert(rows[stored.len() + i] == job.table.rows[i]);
            assert(rows[stored.len() + j] == job.table.rows[j]);
        }
    }
    lemma_newest_all(job.table.rows, job.key_column(), 0);
    let newest = job.newest();
    assert(newest =~= job.table.rows);
    lemma_apply_nothing(newest, dml.key_column, Set::empty(), dml.compaction, newest.len());
    assert(newest.subrange(0, newest.len() as int) =~= newest);
}

} // verus!
