//! The indexes and groups kept for looking rows up by primary key, per
//! published state.

use vstd::prelude::*;

use crate::budget::MemoryBudget;
use crate::catalog;
use crate::error::{corrupt, DevonResult, ErrorKind};
use crate::groups;
use crate::groups::{values_tally, GroupStore, GroupView};
use crate::keys;
use crate::node_table;
use crate::node_table::{column_types, primary_key_column};
use crate::overlay::chain;
use crate::overlay::pk_index;
use crate::overlay::pk_index::{
    build_pk_index, Built, GroupLocation, IndexView, PkIndexResult, PkResolutionIndex,
};
use crate::overlay::published::PublishedState;
use crate::picked;
use crate::schema;
use crate::schema::{NodeSchemaView, NodeTableSchema};
use crate::tally::Tally;
use crate::text::{same_text, with_name};
use crate::types;
use crate::types::{duplicate_values, LogicalType, Value, ValueView};

verus! {

/// Estimated bytes of a group that is kept, without its rows.
pub const KEPT_GROUP_BYTES: usize = 48;

/// Estimated bytes of a kept group's column.
pub const KEPT_COLUMN_BYTES: usize = 24;

/// Whether there is an index.
#[derive(Debug)]
pub enum PkIndexState {
    /// None was asked for yet.
    Unbuilt,
    /// There is one.
    Ready(PkResolutionIndex),
    /// There was no room for one.
    Refused,
}

/// Whether there is an index, and which.
pub enum IndexStateView {
    Unbuilt,
    Ready(IndexView),
    Refused,
}

impl View for PkIndexState {
    type V = IndexStateView;

    open spec fn view(&self) -> IndexStateView {
        match self {
            PkIndexState::Unbuilt => IndexStateView::Unbuilt,
            PkIndexState::Ready(index) => IndexStateView::Ready(index@),
            PkIndexState::Refused => IndexStateView::Refused,
        }
    }
}

/// The group that was read last.
#[derive(Debug)]
pub struct CachedNodeGroup {
    page_id: u64,
    rows: Vec<Vec<Value>>,
    charged_bytes: usize,
}

/// What a kept group holds, and what the budget is charged for it.
#[verifier::ext_equal]
pub struct KeptView {
    pub page_id: u64,
    pub rows: Seq<Seq<ValueView>>,
    pub charged: nat,
}

impl View for CachedNodeGroup {
    type V = KeptView;

    closed spec fn view(&self) -> KeptView {
        KeptView {
            page_id: self.page_id,
            rows: groups::rows_of(self.rows@),
            charged: self.charged_bytes as nat,
        }
    }
}

/// What is kept for one table.
#[derive(Debug)]
pub struct TablePkCache {
    name: String,
    index: PkIndexState,
    decoded: Option<CachedNodeGroup>,
}

/// What is kept for one table.
#[verifier::ext_equal]
pub struct TableCacheView {
    pub name: Seq<char>,
    pub index: IndexStateView,
    pub decoded: Option<KeptView>,
}

impl View for TablePkCache {
    type V = TableCacheView;

    closed spec fn view(&self) -> TableCacheView {
        TableCacheView {
            name: self.name@,
            index: self.index@,
            decoded: match self.decoded {
                Some(kept) => Some(kept@),
                None => None,
            },
        }
    }
}

/// The bytes that an index state is charged.
pub open spec fn index_charge(state: IndexStateView) -> nat {
    match state {
        IndexStateView::Ready(index) => index.charged,
        _ => 0,
    }
}

/// The bytes that a kept group is charged.
pub open spec fn kept_charge(kept: Option<KeptView>) -> nat {
    match kept {
        Some(kept) => kept.charged,
        None => 0,
    }
}

impl TableCacheView {
    /// Nothing is kept yet.
    pub open spec fn fresh(name: Seq<char>) -> TableCacheView {
        TableCacheView { name, index: IndexStateView::Unbuilt, decoded: None }
    }

    /// The bytes that the budget is charged for this.
    pub open spec fn charge(self) -> nat {
        index_charge(self.index) + kept_charge(self.decoded)
    }

    /// Whether the kept group is what the store has.
    pub open spec fn faithful(
        self,
        store: Map<u64, GroupView>,
        types: Seq<LogicalType>,
    ) -> bool {
        self.decoded matches Some(kept) ==> groups::node_at(store, kept.page_id, types) == Some(
            kept.rows,
        )
    }
}

/// The index state once an index was asked for.
pub open spec fn ensured(state: IndexStateView, build: Built) -> Result<IndexStateView, ErrorKind> {
    match state {
        IndexStateView::Unbuilt => match build {
            Built::Going(index, _) => Ok(IndexStateView::Ready(index)),
            Built::Refused => Ok(IndexStateView::Refused),
            Built::Failed(kind) => Err(kind),
        },
        other => Ok(other),
    }
}

/// The build of a table's index.
pub open spec fn build_of(
    store: Map<u64, GroupView>,
    ids: Seq<u64>,
    schema: NodeSchemaView,
    room: int,
) -> Built {
    match node_table::key_column(schema.columns, 0) {
        None => Built::Failed(ErrorKind::Corrupt),
        Some(column) => pk_index::built(
            store,
            ids,
            schema::types_of(schema.columns),
            column as int,
            room,
            ids.len(),
        ),
    }
}

/// The page ids of a table that was stored, none where it never was.
pub open spec fn stored_ids(catalog: catalog::CatalogView, table: Seq<char>) -> Seq<u64> {
    match catalog::node_of(catalog, table) {
        Some(entry) => if entry.stored {
            entry.groups
        } else {
            Seq::empty()
        },
        None => Seq::empty(),
    }
}

/// The bytes of a group that is kept.
pub open spec fn group_bytes(rows: Seq<Seq<ValueView>>, columns: nat) -> nat {
    KEPT_GROUP_BYTES as nat + columns * KEPT_COLUMN_BYTES as nat + cells_bytes(rows)
}

/// The bytes of the values of rows.
pub open spec fn cells_bytes(rows: Seq<Seq<ValueView>>) -> nat
    decreases rows.len(),
{
    if rows.len() == 0 {
        0
    } else {
        cells_bytes(rows.drop_last()) + groups::values_bytes(rows.last())
    }
}

fn group_tally(rows: &Vec<Vec<Value>>, columns: usize) -> (total: Tally)
    ensures
        total.wf(),
        total@ == group_bytes(groups::rows_of(rows@), columns as nat),
{
    let ghost shown = groups::rows_of(rows@);
    let ghost head = KEPT_GROUP_BYTES as nat + columns as nat * KEPT_COLUMN_BYTES as nat;
    let mut total: Tally = Tally::of(KEPT_GROUP_BYTES as u64).plus(
        &Tally::of(columns as u64).times(KEPT_COLUMN_BYTES as u64),
    );
    let mut i: usize = 0;
    assert(shown.subrange(0, 0) =~= Seq::empty());
    while i < rows.len()
        invariant
            i <= rows@.len(),
            shown == groups::rows_of(rows@),
            total.wf(),
            total@ == head + cells_bytes(shown.subrange(0, i as int)),
        decreases rows@.len() - i,
    {
        proof {
            let next = shown.subrange(0, i + 1);
            assert(next.drop_last() =~= shown.subrange(0, i as int));
            assert(next.last() == types::views(rows@[i as int]@));
        }
        total = total.plus(&values_tally(&rows[i]));
        i += 1;
    }
    assert(shown.subrange(0, shown.len() as int) =~= shown);
    total
}

impl TablePkCache {
    /// The index is sound.
    pub closed spec fn wf(self) -> bool {
        self.index matches PkIndexState::Ready(index) ==> index.wf()
    }

    fn new(name: String) -> (cache: TablePkCache)
        ensures
            cache.wf(),
            cache@ == TableCacheView::fresh(name@),
    {
        TablePkCache { name, index: PkIndexState::Unbuilt, decoded: None }
    }

    /// Whether there is an index.
    pub fn is_ready(&self) -> (ready: bool)
        ensures
            ready == (self@.index is Ready),
    {
        match self.index {
            PkIndexState::Ready(_) => true,
            _ => false,
        }
    }

    fn ensure_pk_index(
        &mut self,
        store: &GroupStore,
        ids: &Vec<u64>,
        schema: &NodeTableSchema,
        budget: &mut MemoryBudget,
    ) -> (result: DevonResult<()>)
        requires
            old(self).wf(),
            store.wf(),
        ensures
            final(self).wf(),
            final(self)@.name == old(self)@.name,
            final(self)@.decoded == old(self)@.decoded,
            final(budget).limit_of() == old(budget).limit_of(),
            final(budget).charged_of() - index_charge(final(self)@.index) == old(
                budget,
            ).charged_of() - index_charge(old(self)@.index),
            match (
                result,
                ensured(old(self)@.index, build_of(store@, ids@, schema@, old(budget).room())),
            ) {
                (Ok(()), Ok(state)) => final(self)@.index == state,
                (Err(error), Err(kind)) => error.kind_of() == kind && final(self)@ == old(self)@,
                _ => false,
            },
    {
        match self.index {
            PkIndexState::Unbuilt => {},
            _ => {
                return Ok(());
            },
        }
        let column: usize = match primary_key_column(&schema.columns) {
            Some(column) => column,
            None => {
                return Err(
                    corrupt(
                        with_name(
                            "node table `",
                            schema.name.as_str(),
                            "` has no primary key",
                        ).as_str(),
                    ),
                );
            },
        };
        let types: Vec<LogicalType> = column_types(&schema.columns);
        match build_pk_index(store, ids, &types, column, budget) {
            Ok(Some(index)) => {
                self.index = PkIndexState::Ready(index);
            },
            Ok(None) => {
                self.index = PkIndexState::Refused;
            },
            Err(error) => {
                return Err(error);
            },
        }
        Ok(())
    }

    /// The stored row of a key, by its number.
    pub fn lookup_offset(
        &mut self,
        store: &GroupStore,
        ids: &Vec<u64>,
        schema: &NodeTableSchema,
        key: &Value,
        budget: &mut MemoryBudget,
    ) -> (result: DevonResult<PkIndexResult<u64>>)
        requires
            old(self).wf(),
            store.wf(),
        ensures
            final(self).wf(),
            final(self)@.name == old(self)@.name,
            final(self)@.decoded == old(self)@.decoded,
            final(budget).limit_of() == old(budget).limit_of(),
            final(budget).charged_of() - final(self)@.charge() == old(budget).charged_of() - old(
                self,
            )@.charge(),
            match (
                result,
                ensured(old(self)@.index, build_of(store@, ids@, schema@, old(budget).room())),
            ) {
                (Ok(found), Ok(state)) => final(self)@.index == state && found == offset_of(
                    state,
                    key@,
                ),
                (Err(error), Err(kind)) => error.kind_of() == kind && final(self)@ == old(self)@,
                _ => false,
            },
    {
        match self.ensure_pk_index(store, ids, schema, budget) {
            Ok(()) => {},
            Err(error) => {
                return Err(error);
            },
        }
        match &self.index {
            PkIndexState::Ready(index) => Ok(PkIndexResult::Indexed(index.offset(key))),
            _ => Ok(PkIndexResult::Unavailable),
        }
    }

    /// The stored row of a key. The group that it is read from is kept where
    /// there is room for it; a caller that keeps other caches gives them up
    /// first with [`crate::overlay::reclaim::make_room`].
    pub fn lookup_row(
        &mut self,
        store: &GroupStore,
        ids: &Vec<u64>,
        schema: &NodeTableSchema,
        key: &Value,
        budget: &mut MemoryBudget,
    ) -> (result: DevonResult<PkIndexResult<Vec<Value>>>)
        requires
            old(self).wf(),
            store.wf(),
            old(self)@.faithful(store@, schema::types_of(schema@.columns)),
            kept_charge(old(self)@.decoded) <= old(budget).charged_of(),
        ensures
            final(self).wf(),
            final(self)@.name == old(self)@.name,
            final(self)@.faithful(store@, schema::types_of(schema@.columns)),
            final(budget).limit_of() == old(budget).limit_of(),
            final(budget).charged_of() - final(self)@.charge() == old(budget).charged_of() - old(
                self,
            )@.charge(),
            match ensured(old(self)@.index, build_of(store@, ids@, schema@, old(budget).room())) {
                Err(kind) => result is Err && result->Err_0.kind_of() == kind && final(self)@
                    == old(self)@,
                Ok(state) => {
                    &&& final(self)@.index == state
                    &&& final(self)@.decoded == kept_by_lookup(
                        old(self)@,
                        state,
                        key@,
                        store@,
                        schema::types_of(schema@.columns),
                        old(budget).room(),
                    )
                    &&& row_found(
                        state,
                        key@,
                        store@,
                        schema::types_of(schema@.columns),
                        result,
                    )
                },
            },
    {
        match self.ensure_pk_index(store, ids, schema, budget) {
            Ok(()) => {},
            Err(error) => {
                return Err(error);
            },
        }
        let located: Option<(u64, GroupLocation)> = match &self.index {
            PkIndexState::Ready(index) => match index.locate(key) {
                Ok(located) => located,
                Err(error) => {
                    return Err(error);
                },
            },
            _ => {
                return Ok(PkIndexResult::Unavailable);
            },
        };
        match located {
            None => Ok(PkIndexResult::Indexed(None)),
            Some((offset, location)) => {
                match self.read_row(store, schema, offset, location, budget) {
                    Ok(row) => Ok(PkIndexResult::Indexed(Some(row))),
                    Err(error) => Err(error),
                }
            },
        }
    }

    fn read_row(
        &mut self,
        store: &GroupStore,
        schema: &NodeTableSchema,
        offset: u64,
        location: GroupLocation,
        budget: &mut MemoryBudget,
    ) -> (result: DevonResult<Vec<Value>>)
        requires
            old(self).wf(),
            store.wf(),
            location.holds(offset),
            offset - location.start_offset <= usize::MAX,
            old(self)@.faithful(store@, schema::types_of(schema@.columns)),
            kept_charge(old(self)@.decoded) <= old(budget).charged_of(),
        ensures
            final(self).wf(),
            final(self)@.name == old(self)@.name,
            final(self)@.index == old(self)@.index,
            final(self)@.faithful(store@, schema::types_of(schema@.columns)),
            final(budget).limit_of() == old(budget).limit_of(),
            final(budget).charged_of() - kept_charge(final(self)@.decoded) == old(
                budget,
            ).charged_of() - kept_charge(old(self)@.decoded),
            final(self)@.decoded == kept_after(
                old(self)@.decoded,
                store@,
                schema::types_of(schema@.columns),
                location,
                offset,
                old(budget).room(),
            ),
            match (
                result,
                row_at(
                    store@,
                    schema::types_of(schema@.columns),
                    location,
                    offset,
                ),
            ) {
                (Ok(row), Some(want)) => types::views(row@) == want,
                (Err(error), None) => error.kind_of() == ErrorKind::Corrupt,
                _ => false,
            },
    {
        let row: usize = match location.row_index(offset) {
            Ok(row) => row,
            Err(error) => {
                return Err(error);
            },
        };
        match &self.decoded {
            Some(kept) => {
                if kept.page_id == location.page_id {
                    let ghost shown = groups::rows_of(kept.rows@);
                    if row < kept.rows.len() {
                        assert(shown[row as int] == types::views(kept.rows@[row as int]@));
                        return Ok(duplicate_values(kept.rows[row].as_slice()));
                    }
                    return Err(corrupt("node group is missing an indexed row value"));
                }
            },
            None => {},
        }
        let ghost before = *budget;
        match &self.decoded {
            Some(kept) => {
                budget.release(kept.charged_bytes);
            },
            None => {},
        }
        self.decoded = None;
        let types: Vec<LogicalType> = column_types(&schema.columns);
        let rows: Vec<Vec<Value>> = match store.read_rows(location.page_id, &types) {
            Ok(rows) => rows,
            Err(error) => {
                return Err(error);
            },
        };
        let ghost shown = groups::rows_of(rows@);
        if row >= rows.len() {
            return Err(corrupt("node group is missing an indexed row value"));
        }
        assert(shown[row as int] == types::views(rows@[row as int]@));
        let found: Vec<Value> = duplicate_values(rows[row].as_slice());
        proof {
            before.lemma_limit();
            assert(groups::node_at(store@, location.page_id, types@) == Some(shown));
            assert(types@ =~= schema::types_of(schema@.columns));
        }
        match group_tally(&rows, types.len()).size() {
            Some(charged_bytes) => {
                if budget.try_charge(charged_bytes) {
                    self.decoded = Some(
                        CachedNodeGroup { page_id: location.page_id, rows, charged_bytes },
                    );
                }
            },
            None => {},
        }
        Ok(found)
    }

    fn shed(&mut self, budget: &mut MemoryBudget) -> (any: bool)
        requires
            old(self).wf(),
        ensures
            final(self).wf(),
            final(self)@ == shed_table(old(self)@),
            any == holds_any(old(self)@),
            final(budget).limit_of() == old(budget).limit_of(),
            final(budget).charged_of() == chain::released(
                old(budget).charged_of(),
                old(self)@.charge(),
            ),
    {
        let mut any: bool = false;
        match &self.index {
            PkIndexState::Ready(index) => {
                budget.release(index.charged_bytes());
                any = true;
            },
            _ => {},
        }
        if any {
            self.index = PkIndexState::Unbuilt;
        }
        match &self.decoded {
            Some(kept) => {
                budget.release(kept.charged_bytes);
                any = true;
            },
            None => {},
        }
        self.decoded = None;
        any
    }
}

/// What an index says of a key.
pub open spec fn offset_of(state: IndexStateView, key: ValueView) -> PkIndexResult<u64> {
    match state {
        IndexStateView::Ready(index) => match keys::key_of(key) {
            Some(key) => if index.offsets.contains_key(key) {
                PkIndexResult::Indexed(Some(index.offsets[key]))
            } else {
                PkIndexResult::Indexed(None)
            },
            None => PkIndexResult::Indexed(None),
        },
        _ => PkIndexResult::Unavailable,
    }
}

/// The row of a group that holds it.
pub open spec fn row_at(
    store: Map<u64, GroupView>,
    types: Seq<LogicalType>,
    location: GroupLocation,
    offset: u64,
) -> Option<Seq<ValueView>> {
    match groups::node_at(store, location.page_id, types) {
        Some(rows) => if offset - location.start_offset < rows.len() {
            Some(rows[offset - location.start_offset])
        } else {
            None
        },
        None => None,
    }
}

/// The group that is kept once a row was read: the one that holds the row, where it is kept already
/// or its charge fits beside what else is charged; the one that was kept before makes room.
pub open spec fn kept_after(
    kept: Option<KeptView>,
    store: Map<u64, GroupView>,
    types: Seq<LogicalType>,
    location: GroupLocation,
    offset: u64,
    room: int,
) -> Option<KeptView> {
    if kept is Some && kept->0.page_id == location.page_id {
        kept
    } else {
        match groups::node_at(store, location.page_id, types) {
            Some(rows) => {
                let bytes = group_bytes(rows, types.len());
                if offset - location.start_offset < rows.len() && bytes <= room + kept_charge(
                    kept,
                ) {
                    Some(KeptView { page_id: location.page_id, rows, charged: bytes })
                } else {
                    None
                }
            },
            None => None,
        }
    }
}

/// The group that is kept once a key's row was looked up by an index: as before where the key has no
/// row.
pub open spec fn kept_by_lookup(
    before: TableCacheView,
    state: IndexStateView,
    key: ValueView,
    store: Map<u64, GroupView>,
    types: Seq<LogicalType>,
    room: int,
) -> Option<KeptView> {
    match offset_of(state, key) {
        PkIndexResult::Indexed(Some(offset)) => {
            let location = pk_index::last_start(
                state->Ready_0.groups,
                offset,
                state->Ready_0.groups.len(),
            );
            if location is Some && location->0.holds(offset) && offset - location->0.start_offset
                <= usize::MAX {
                kept_after(
                    before.decoded,
                    store,
                    types,
                    location->0,
                    offset,
                    room - (index_charge(state) - index_charge(before.index)),
                )
            } else {
                before.decoded
            }
        },
        _ => before.decoded,
    }
}

/// Whether a result is what an index and the store say of a key's row.
pub open spec fn row_found(
    state: IndexStateView,
    key: ValueView,
    store: Map<u64, GroupView>,
    types: Seq<LogicalType>,
    result: DevonResult<PkIndexResult<Vec<Value>>>,
) -> bool {
    match offset_of(state, key) {
        PkIndexResult::Unavailable => result == Ok::<
            PkIndexResult<Vec<Value>>,
            crate::error::DevonError,
        >(PkIndexResult::Unavailable),
        PkIndexResult::Indexed(None) => result == Ok::<
            PkIndexResult<Vec<Value>>,
            crate::error::DevonError,
        >(PkIndexResult::Indexed(None)),
        PkIndexResult::Indexed(Some(offset)) => match result {
            Ok(PkIndexResult::Indexed(Some(row))) => {
                let location = pk_index::last_start(
                    state->Ready_0.groups,
                    offset,
                    state->Ready_0.groups.len(),
                );
                &&& location is Some
                &&& location->Some_0.holds(offset)
                &&& row_at(store, types, location->Some_0, offset) == Some(types::views(row@))
            },
            Err(error) => {
                let location = pk_index::last_start(
                    state->Ready_0.groups,
                    offset,
                    state->Ready_0.groups.len(),
                );
                &&& error.kind_of() == ErrorKind::Corrupt
                &&& location is None || !location->Some_0.holds(offset) || offset
                    - location->Some_0.start_offset > usize::MAX || row_at(
                    store,
                    types,
                    location->Some_0,
                    offset,
                ) is None
            },
            _ => false,
        },
    }
}

/// Whether anything is kept that can be given up.
pub open spec fn holds_any(cache: TableCacheView) -> bool {
    cache.index is Ready || cache.decoded is Some
}

/// A table's cache with all given up: an index is built again when it is
/// asked for, but one that was refused stays so.
pub open spec fn shed_table(cache: TableCacheView) -> TableCacheView {
    TableCacheView {
        name: cache.name,
        index: match cache.index {
            IndexStateView::Ready(_) => IndexStateView::Unbuilt,
            other => other,
        },
        decoded: None,
    }
}

/// What is kept for published states that have the same stored rows.
#[derive(Debug)]
struct PkCacheSet {
    publications: Vec<u64>,
    tables: Vec<TablePkCache>,
}

/// What is kept for published states that have the same stored rows.
#[verifier::ext_equal]
pub struct CacheSetView {
    pub publications: Seq<u64>,
    pub tables: Seq<TableCacheView>,
}

/// What tables' caches say.
pub open spec fn tables_of(tables: Seq<TablePkCache>) -> Seq<TableCacheView> {
    tables.map_values(|cache: TablePkCache| cache@)
}

impl PkCacheSet {
    spec fn shown(self) -> CacheSetView {
        CacheSetView { publications: self.publications@, tables: tables_of(self.tables@) }
    }

    spec fn wf(self) -> bool {
        forall|i: int| 0 <= i < self.tables@.len() ==> (#[trigger] self.tables@[i]).wf()
    }
}

/// All that is kept for looking rows up by primary key.
#[derive(Debug)]
pub struct PkRegistry {
    sets: Vec<PkCacheSet>,
}

impl View for PkRegistry {
    type V = Seq<CacheSetView>;

    closed spec fn view(&self) -> Seq<CacheSetView> {
        self.sets@.map_values(|set: PkCacheSet| set.shown())
    }
}

/// Where a state's set stands at or behind `from`.
pub open spec fn set_place(sets: Seq<CacheSetView>, publication: u64, from: nat) -> Option<nat>
    decreases sets.len() - from,
{
    if from >= sets.len() {
        None
    } else if sets[from as int].publications.contains(publication) {
        Some(from)
    } else {
        set_place(sets, publication, from + 1)
    }
}

/// Where a table's cache stands at or behind `from`.
pub open spec fn table_place(tables: Seq<TableCacheView>, name: Seq<char>, from: nat) -> Option<nat>
    decreases tables.len() - from,
{
    if from >= tables.len() {
        None
    } else if tables[from as int].name == name {
        Some(from)
    } else {
        table_place(tables, name, from + 1)
    }
}

/// The caches of a state are the first set that lists it.
pub proof fn law_set_is_the_first_of_its_state(
    sets: Seq<CacheSetView>,
    publication: u64,
    from: nat,
)
    ensures
        match set_place(sets, publication, from) {
            Some(at) => {
                &&& from <= at < sets.len()
                &&& sets[at as int].publications.contains(publication)
                &&& forall|i: int|
                    from <= i < at ==> !(#[trigger] sets[i]).publications.contains(publication)
            },
            None => forall|i: int|
                from <= i < sets.len() ==> !(#[trigger] sets[i]).publications.contains(publication),
        },
    decreases sets.len() - from,
{
    if from < sets.len() && !sets[from as int].publications.contains(publication) {
        law_set_is_the_first_of_its_state(sets, publication, from + 1);
    }
}

/// The cache of a table is the first of its name.
pub proof fn law_table_is_the_first_of_its_name(
    tables: Seq<TableCacheView>,
    name: Seq<char>,
    from: nat,
)
    ensures
        match table_place(tables, name, from) {
            Some(at) => {
                &&& from <= at < tables.len()
                &&& tables[at as int].name == name
                &&& forall|i: int| from <= i < at ==> (#[trigger] tables[i]).name != name
            },
            None => forall|i: int| from <= i < tables.len() ==> (#[trigger] tables[i]).name != name,
        },
    decreases tables.len() - from,
{
    if from < tables.len() && tables[from as int].name != name {
        law_table_is_the_first_of_its_name(tables, name, from + 1);
    }
}

/// A place that was found is inside.
proof fn lemma_set_place(sets: Seq<CacheSetView>, publication: u64, from: nat)
    ensures
        set_place(sets, publication, from) matches Some(at) ==> from <= at < sets.len(),
    decreases sets.len() - from,
{
    if from < sets.len() {
        lemma_set_place(sets, publication, from + 1);
    }
}

/// A place that was found is inside.
proof fn lemma_table_place(tables: Seq<TableCacheView>, name: Seq<char>, from: nat)
    ensures
        table_place(tables, name, from) matches Some(at) ==> from <= at < tables.len()
            && tables[at as int].name == name,
    decreases tables.len() - from,
{
    if from < tables.len() {
        lemma_table_place(tables, name, from + 1);
    }
}

/// The tables with a cache for one, and where it stands.
pub open spec fn with_table(tables: Seq<TableCacheView>, name: Seq<char>) -> (
    Seq<TableCacheView>,
    int,
) {
    match table_place(tables, name, 0) {
        Some(at) => (tables, at as int),
        None => (tables.push(TableCacheView::fresh(name)), tables.len() as int),
    }
}

/// The sets with one for a state, and where it stands.
pub open spec fn with_set(sets: Seq<CacheSetView>, publication: u64) -> (Seq<CacheSetView>, int) {
    match set_place(sets, publication, 0) {
        Some(at) => (sets, at as int),
        None => (
            sets.push(CacheSetView { publications: seq![publication], tables: Seq::empty() }),
            sets.len() as int,
        ),
    }
}

/// A state's cache of a table: what is kept, or that nothing is yet.
pub open spec fn cache_at(
    sets: Seq<CacheSetView>,
    publication: u64,
    name: Seq<char>,
) -> TableCacheView {
    let (opened, at) = with_set(sets, publication);
    let (tables, place) = with_table(opened[at].tables, name);
    tables[place]
}

/// All that is kept, with another cache of a state's table.
pub open spec fn with_cache(
    sets: Seq<CacheSetView>,
    publication: u64,
    name: Seq<char>,
    cache: TableCacheView,
) -> Seq<CacheSetView> {
    let (opened, at) = with_set(sets, publication);
    let (tables, place) = with_table(opened[at].tables, name);
    opened.update(at, CacheSetView { tables: tables.update(place, cache), ..opened[at] })
}

/// The bytes that tables' caches are charged.
pub open spec fn tables_charge(tables: Seq<TableCacheView>) -> nat
    decreases tables.len(),
{
    if tables.len() == 0 {
        0
    } else {
        tables_charge(tables.drop_last()) + tables.last().charge()
    }
}

/// The bytes that all that is kept is charged.
pub open spec fn sets_charge(sets: Seq<CacheSetView>) -> nat
    decreases sets.len(),
{
    if sets.len() == 0 {
        0
    } else {
        sets_charge(sets.drop_last()) + tables_charge(sets.last().tables)
    }
}

/// A set with all given up.
pub open spec fn shed_set(set: CacheSetView) -> CacheSetView {
    CacheSetView {
        tables: set.tables.map_values(|cache: TableCacheView| shed_table(cache)),
        ..set
    }
}

/// Nothing is charged for sets that are given up.
pub proof fn lemma_shed_charges(sets: Seq<CacheSetView>)
    ensures
        sets_charge(sets.map_values(|set: CacheSetView| shed_set(set))) == 0,
    decreases sets.len(),
{
    if sets.len() > 0 {
        let shed = sets.map_values(|set: CacheSetView| shed_set(set));
        lemma_shed_charges(sets.drop_last());
        assert(shed.drop_last() =~= sets.drop_last().map_values(
            |set: CacheSetView| shed_set(set),
        ));
        lemma_shed_tables_charge(sets.last().tables);
    }
}

proof fn lemma_shed_tables_charge(tables: Seq<TableCacheView>)
    ensures
        tables_charge(tables.map_values(|cache: TableCacheView| shed_table(cache))) == 0,
    decreases tables.len(),
{
    if tables.len() > 0 {
        let shed = tables.map_values(|cache: TableCacheView| shed_table(cache));
        lemma_shed_tables_charge(tables.drop_last());
        assert(shed.drop_last() =~= tables.drop_last().map_values(
            |cache: TableCacheView| shed_table(cache),
        ));
    }
}

/// Another cache of a state's table changes what is charged by the difference of the two.
pub proof fn lemma_cache_charge(
    sets: Seq<CacheSetView>,
    publication: u64,
    name: Seq<char>,
    cache: TableCacheView,
)
    ensures
        sets_charge(with_cache(sets, publication, name, cache)) == sets_charge(sets)
            + cache.charge() - cache_at(sets, publication, name).charge(),
{
    let (opened, at) = with_set(sets, publication);
    let (tables, place) = with_table(opened[at].tables, name);
    lemma_set_place(sets, publication, 0);
    lemma_table_place(opened[at].tables, name, 0);
    if set_place(sets, publication, 0) is None {
        assert(opened.drop_last() =~= sets);
    }
    if table_place(opened[at].tables, name, 0) is None {
        assert(tables.drop_last() =~= opened[at].tables);
    }
    lemma_tables_charge_updated(tables, place, cache);
    lemma_sets_charge_updated(
        opened,
        at,
        CacheSetView { tables: tables.update(place, cache), ..opened[at] },
    );
}

proof fn lemma_tables_charge_updated(tables: Seq<TableCacheView>, at: int, cache: TableCacheView)
    requires
        0 <= at < tables.len(),
    ensures
        tables_charge(tables.update(at, cache)) == tables_charge(tables) + cache.charge()
            - tables[at].charge(),
    decreases tables.len(),
{
    let other = tables.update(at, cache);
    if at == tables.len() - 1 {
        assert(other.drop_last() =~= tables.drop_last());
    } else {
        lemma_tables_charge_updated(tables.drop_last(), at, cache);
        assert(other.drop_last() =~= tables.drop_last().update(at, cache));
    }
}

proof fn lemma_sets_charge_updated(sets: Seq<CacheSetView>, at: int, set: CacheSetView)
    requires
        0 <= at < sets.len(),
    ensures
        sets_charge(sets.update(at, set)) == sets_charge(sets) + tables_charge(set.tables)
            - tables_charge(sets[at].tables),
    decreases sets.len(),
{
    let other = sets.update(at, set);
    if at == sets.len() - 1 {
        assert(other.drop_last() =~= sets.drop_last());
    } else {
        lemma_sets_charge_updated(sets.drop_last(), at, set);
        assert(other.drop_last() =~= sets.drop_last().update(at, set));
    }
}

/// Whether any table's cache of a set holds something.
pub open spec fn set_holds(set: CacheSetView) -> bool {
    exists|i: int| 0 <= i < set.tables.len() && holds_any(#[trigger] set.tables[i])
}

fn has_publication(publications: &Vec<u64>, publication: u64) -> (there: bool)
    ensures
        there == publications@.contains(publication),
{
    let mut i: usize = 0;
    while i < publications.len()
        invariant
            i <= publications@.len(),
            forall|k: int| 0 <= k < i ==> publications@[k] != publication,
        decreases publications@.len() - i,
    {
        if publications[i] == publication {
            return true;
        }
        i += 1;
    }
    false
}

fn shed_tables(tables: &mut Vec<TablePkCache>, budget: &mut MemoryBudget) -> (any: bool)
    requires
        forall|i: int| 0 <= i < old(tables)@.len() ==> (#[trigger] old(tables)@[i]).wf(),
    ensures
        forall|i: int| 0 <= i < final(tables)@.len() ==> (#[trigger] final(tables)@[i]).wf(),
        tables_of(final(tables)@) == tables_of(old(tables)@).map_values(
            |cache: TableCacheView| shed_table(cache),
        ),
        any == (exists|i: int|
            0 <= i < old(tables)@.len() && holds_any(#[trigger] tables_of(old(tables)@)[i])),
        final(budget).limit_of() == old(budget).limit_of(),
        final(budget).charged_of() == chain::released(
            old(budget).charged_of(),
            tables_charge(tables_of(old(tables)@)),
        ),
{
    let ghost all = tables_of(tables@);
    let ghost first = budget.charged_of();
    let mut any: bool = false;
    let mut i: usize = 0;
    assert(all.subrange(0, 0) =~= Seq::empty());
    while i < tables.len()
        invariant
            i <= all.len() == tables@.len(),
            all == tables_of(old(tables)@),
            first == old(budget).charged_of(),
            forall|k: int| 0 <= k < tables@.len() ==> (#[trigger] tables@[k]).wf(),
            forall|k: int| 0 <= k < i ==> (#[trigger] tables@[k])@ == shed_table(all[k]),
            forall|k: int| i <= k < all.len() ==> (#[trigger] tables@[k])@ == all[k],
            any == (exists|k: int| 0 <= k < i && holds_any(#[trigger] all[k])),
            budget.limit_of() == old(budget).limit_of(),
            budget.charged_of() == chain::released(
                first,
                tables_charge(all.subrange(0, i as int)),
            ),
        decreases all.len() - i,
    {
        let ghost before = tables@;
        proof {
            let next = all.subrange(0, i + 1);
            assert(next.drop_last() =~= all.subrange(0, i as int));
            assert(before[i as int]@ == all[i as int]);
        }
        let mut cache: TablePkCache = tables.remove(i);
        if cache.shed(budget) {
            any = true;
        }
        tables.insert(i, cache);
        assert(tables@ =~= before.update(i as int, cache));
        i += 1;
    }
    assert(all.subrange(0, all.len() as int) =~= all);
    assert(tables_of(tables@) =~= all.map_values(|cache: TableCacheView| shed_table(cache)));
    any
}

impl PkRegistry {
    /// All indexes are sound.
    pub closed spec fn wf(self) -> bool {
        forall|i: int| 0 <= i < self.sets@.len() ==> (#[trigger] self.sets@[i]).wf()
    }

    /// Nothing is kept.
    pub fn new() -> (registry: PkRegistry)
        ensures
            registry.wf(),
            registry@ == Seq::<CacheSetView>::empty(),
    {
        let registry = PkRegistry { sets: Vec::new() };
        assert(registry@ =~= Seq::<CacheSetView>::empty());
        registry
    }

    fn find_set(&self, publication: u64) -> (found: Option<usize>)
        ensures
            match found {
                Some(at) => set_place(self@, publication, 0) == Some(at as nat) && at
                    < self.sets@.len(),
                None => set_place(self@, publication, 0) is None,
            },
    {
        let mut i: usize = 0;
        while i < self.sets.len()
            invariant
                i <= self.sets@.len(),
                set_place(self@, publication, 0) == set_place(self@, publication, i as nat),
            decreases self.sets@.len() - i,
        {
            assert(self@[i as int] == self.sets@[i as int].shown());
            if has_publication(&self.sets[i].publications, publication) {
                return Some(i);
            }
            i += 1;
        }
        None
    }

    /// Takes a state's cache of a table out; where to put it back.
    fn take(&mut self, publication: u64, name: &String) -> (taken: (usize, PkCacheSet, usize, TablePkCache))
        requires
            old(self).wf(),
        ensures
            final(self).wf(),
            ({
                let (opened, at) = with_set(old(self)@, publication);
                let (tables, place) = with_table(opened[at].tables, name@);
                &&& taken.0 == at
                &&& taken.2 == place
                &&& at < opened.len()
                &&& place < tables.len()
                &&& final(self)@ == opened.remove(at)
                &&& taken.1.wf()
                &&& taken.1.publications@ == opened[at].publications
                &&& tables_of(taken.1.tables@) == tables.remove(place)
                &&& taken.3.wf()
                &&& taken.3@ == tables[place]
            }),
    {
        let ghost before = self@;
        proof {
            lemma_set_place(before, publication, 0);
        }
        let at: usize = match self.find_set(publication) {
            Some(at) => at,
            None => {
                let mut publications: Vec<u64> = Vec::new();
                publications.push(publication);
                self.sets.push(PkCacheSet { publications, tables: Vec::new() });
                assert(self.sets@.last().shown() =~= CacheSetView {
                    publications: seq![publication],
                    tables: Seq::empty(),
                });
                assert(self@ =~= with_set(before, publication).0);
                self.sets.len() - 1
            },
        };
        let ghost opened = self@;
        assert(opened[at as int] == self.sets@[at as int].shown());
        let ghost held = self.sets@;
        let mut set: PkCacheSet = self.sets.remove(at);
        assert(self@ =~= opened.remove(at as int));
        let ghost listed = tables_of(set.tables@);
        let mut place: usize = 0;
        while place < set.tables.len() && !same_text(&set.tables[place].name, name)
            invariant
                place <= set.tables@.len(),
                listed == tables_of(set.tables@),
                table_place(listed, name@, 0) == table_place(listed, name@, place as nat),
            decreases set.tables@.len() - place,
        {
            assert(listed[place as int] == set.tables@[place as int]@);
            place += 1;
        }
        if place < set.tables.len() {
            assert(listed[place as int] == set.tables@[place as int]@);
        } else {
            set.tables.push(TablePkCache::new(name.clone()));
            assert(tables_of(set.tables@) =~= listed.push(TableCacheView::fresh(name@)));
        }
        let ghost tables = tables_of(set.tables@);
        assert(tables[place as int] == set.tables@[place as int]@);
        let cache: TablePkCache = set.tables.remove(place);
        assert(tables_of(set.tables@) =~= tables.remove(place as int));
        (at, set, place, cache)
    }

    fn put(
        &mut self,
        at: usize,
        set: PkCacheSet,
        place: usize,
        cache: TablePkCache,
    )
        requires
            old(self).wf(),
            set.wf(),
            cache.wf(),
            at <= old(self)@.len(),
            place <= set.tables@.len(),
        ensures
            final(self).wf(),
            final(self)@ == old(self)@.insert(
                at as int,
                (CacheSetView {
                    publications: set.publications@,
                    tables: tables_of(set.tables@).insert(place as int, cache@),
                }),
            ),
    {
        let ghost before = self@;
        let ghost listed = tables_of(set.tables@);
        let mut set: PkCacheSet = set;
        let ghost shown = cache@;
        set.tables.insert(place, cache);
        assert(tables_of(set.tables@) =~= listed.insert(place as int, shown));
        let ghost want = set.shown();
        self.sets.insert(at, set);
        assert(self@ =~= before.insert(at as int, want));
    }

    /// Lets go of what is kept for a state. What no other state shares goes,
    /// and its charges are given back.
    pub fn forget(&mut self, publication: u64, budget: &mut MemoryBudget)
        requires
            old(self).wf(),
        ensures
            final(self).wf(),
            final(budget).limit_of() == old(budget).limit_of(),
            final(self)@ == forgotten(old(self)@, publication),
            final(budget).charged_of() == chain::released(
                old(budget).charged_of(),
                forgotten_charge(old(self)@, publication),
            ),
    {
        let at: usize = match self.find_set(publication) {
            Some(at) => at,
            None => {
                return;
            },
        };
        let ghost before = self@;
        assert(before[at as int] == self.sets@[at as int].shown());
        let mut set: PkCacheSet = self.sets.remove(at);
        assert(self@ =~= before.remove(at as int));
        let left: Vec<u64> = drop_publication(&set.publications, publication);
        if left.len() == 0 {
            shed_tables(&mut set.tables, budget);
        } else {
            set.publications = left;
            let ghost shown = set.shown();
            self.sets.insert(at, set);
            assert(self@ =~= before.update(at as int, shown));
        }
    }
}

/// What is left once a state is let go of: what no other state shares goes.
pub open spec fn forgotten(sets: Seq<CacheSetView>, publication: u64) -> Seq<CacheSetView> {
    match set_place(sets, publication, 0) {
        None => sets,
        Some(at) => {
            let left = without(sets[at as int].publications, publication);
            if left.len() == 0 {
                sets.remove(at as int)
            } else {
                sets.update(at as int, CacheSetView { publications: left, ..sets[at as int] })
            }
        },
    }
}

/// The charges that letting a state go gives back.
pub open spec fn forgotten_charge(sets: Seq<CacheSetView>, publication: u64) -> nat {
    match set_place(sets, publication, 0) {
        None => 0,
        Some(at) => if without(sets[at as int].publications, publication).len() == 0 {
            tables_charge(sets[at as int].tables)
        } else {
            0
        },
    }
}

/// The publications without one.
pub open spec fn without(publications: Seq<u64>, publication: u64) -> Seq<u64>
    decreases publications.len(),
{
    if publications.len() == 0 {
        Seq::empty()
    } else if publications.last() == publication {
        without(publications.drop_last(), publication)
    } else {
        without(publications.drop_last(), publication).push(publications.last())
    }
}

/// Letting a state go leaves every other one, in order.
pub proof fn law_other_publications_stay(publications: Seq<u64>, publication: u64)
    ensures
        picked::keeps(
            without(publications, publication),
            publications,
            |other: u64| other != publication,
        ),
    decreases publications.len(),
{
    let wanted = |other: u64| other != publication;
    if publications.len() == 0 {
        picked::lemma_keeps_none(publications, wanted);
    } else {
        let rest = publications.drop_last();
        law_other_publications_stay(rest, publication);
        assert(publications =~= rest.push(publications.last()));
        picked::lemma_keeps_more(without(rest, publication), rest, wanted, publications.last());
    }
}

/// The publications without one.
pub(crate) fn drop_publication(publications: &Vec<u64>, publication: u64) -> (left: Vec<u64>)
    ensures
        left@ == without(publications@, publication),
{
    let ghost all = publications@;
    let mut left: Vec<u64> = Vec::new();
    let mut i: usize = 0;
    assert(all.subrange(0, 0) =~= Seq::empty());
    while i < publications.len()
        invariant
            i <= publications@.len(),
            all == publications@,
            left@ == without(all.subrange(0, i as int), publication),
        decreases publications@.len() - i,
    {
        proof {
            let next = all.subrange(0, i + 1);
            assert(next.drop_last() =~= all.subrange(0, i as int));
        }
        if publications[i] != publication {
            left.push(publications[i]);
        }
        i += 1;
    }
    assert(all.subrange(0, all.len() as int) =~= all);
    left
}

/// Gives up all indexes and groups that are kept. That is always right: an
/// index is built again when it is asked for.
pub fn shed_pk_caches(registry: &mut PkRegistry, budget: &mut MemoryBudget) -> (any: bool)
    requires
        old(registry).wf(),
    ensures
        final(registry).wf(),
        final(registry)@ == old(registry)@.map_values(|set: CacheSetView| shed_set(set)),
        any == (exists|i: int|
            0 <= i < old(registry)@.len() && set_holds(#[trigger] old(registry)@[i])),
        final(budget).limit_of() == old(budget).limit_of(),
        final(budget).charged_of() == chain::released(
            old(budget).charged_of(),
            sets_charge(old(registry)@),
        ),
{
    let ghost all = registry@;
    let ghost first = budget.charged_of();
    let mut any: bool = false;
    let mut i: usize = 0;
    assert(all.subrange(0, 0) =~= Seq::empty());
    while i < registry.sets.len()
        invariant
            i <= all.len() == registry.sets@.len(),
            all == old(registry)@,
            registry.wf(),
            first == old(budget).charged_of(),
            forall|k: int|
                0 <= k < i ==> (#[trigger] registry.sets@[k]).shown() == shed_set(all[k]),
            forall|k: int| i <= k < all.len() ==> (#[trigger] registry.sets@[k]).shown() == all[k],
            any == (exists|k: int| 0 <= k < i && set_holds(#[trigger] all[k])),
            budget.limit_of() == old(budget).limit_of(),
            budget.charged_of() == chain::released(first, sets_charge(all.subrange(0, i as int))),
        decreases all.len() - i,
    {
        let ghost before = registry.sets@;
        proof {
            let next = all.subrange(0, i + 1);
            assert(next.drop_last() =~= all.subrange(0, i as int));
            assert(before[i as int].shown() == all[i as int]);
        }
        let mut set: PkCacheSet = registry.sets.remove(i);
        let ghost listed = tables_of(set.tables@);
        assert(all[i as int].tables == listed);
        if shed_tables(&mut set.tables, budget) {
            any = true;
            assert(set_holds(all[i as int]));
        } else {
            assert(!set_holds(all[i as int]));
        }
        registry.sets.insert(i, set);
        assert(registry.sets@ =~= before.update(i as int, set));
        assert(set.shown() =~= shed_set(all[i as int]));
        i += 1;
    }
    assert(all.subrange(0, all.len() as int) =~= all);
    assert(registry@ =~= all.map_values(|set: CacheSetView| shed_set(set)));
    any
}

impl PublishedState {
    /// The number of the stored row with a key, by the index kept for this
    /// state.
    pub fn checkpointed_node_offset(
        state: &PublishedState,
        publication: u64,
        registry: &mut PkRegistry,
        store: &GroupStore,
        table: &str,
        key: &Value,
        budget: &mut MemoryBudget,
    ) -> (result: DevonResult<PkIndexResult<u64>>)
        requires
            old(registry).wf(),
            store.wf(),
        ensures
            final(registry).wf(),
            final(budget).limit_of() == old(budget).limit_of(),
            match catalog::node_of(state.catalog@, table@) {
                None => result == Ok::<PkIndexResult<u64>, crate::error::DevonError>(
                    PkIndexResult::Indexed(None),
                ) && final(registry)@ == old(registry)@ && final(budget).charged_of() == old(
                    budget,
                ).charged_of(),
                Some(entry) => {
                    let before = cache_at(old(registry)@, publication, entry.schema.name);
                    let build = build_of(
                        store@,
                        stored_ids(state.catalog@, entry.schema.name),
                        entry.schema,
                        old(budget).room(),
                    );
                    match (result, ensured(before.index, build)) {
                        (Ok(found), Ok(index)) => {
                            &&& found == offset_of(index, key@)
                            &&& final(registry)@ == with_cache(
                                old(registry)@,
                                publication,
                                entry.schema.name,
                                (TableCacheView { index, ..before }),
                            )
                            &&& final(budget).charged_of() == old(budget).charged_of()
                                + index_charge(index) - index_charge(before.index)
                        },
                        (Err(error), Err(kind)) => {
                            &&& error.kind_of() == kind
                            &&& final(registry)@ == with_cache(
                                old(registry)@,
                                publication,
                                entry.schema.name,
                                before,
                            )
                            &&& final(budget).charged_of() == old(budget).charged_of()
                        },
                        _ => false,
                    }
                },
            },
    {
        let schema: &NodeTableSchema = match state.catalog.node_table(table) {
            Some(schema) => schema,
            None => {
                return Ok(PkIndexResult::Indexed(None));
            },
        };
        let none: Vec<u64> = Vec::new();
        let ids: &Vec<u64> = match state.catalog.table_storage(schema.name.as_str()) {
            Some(ids) => ids,
            None => &none,
        };
        assert(ids@ =~= stored_ids(state.catalog@, schema@.name));
        let ghost first = registry@;
        let ghost (opened, spot) = with_set(first, publication);
        let ghost (tables, slot) = with_table(opened[spot].tables, schema@.name);
        let (at, set, place, cache) = registry.take(publication, &schema.name);
        proof {
            lemma_table_place(opened[spot].tables, schema@.name, 0);
            assert(tables_of(set.tables@).len() == tables.len() - 1);
        }
        let mut cache: TablePkCache = cache;
        let found: DevonResult<PkIndexResult<u64>> = cache.lookup_offset(
            store,
            ids,
            schema,
            key,
            budget,
        );
        let ghost after = cache@;
        registry.put(at, set, place, cache);
        proof {
            let before = tables[slot];
            assert(tables.remove(slot).insert(slot, after) =~= tables.update(slot, after));
            assert(registry@ =~= with_cache(first, publication, schema@.name, after));
            match ensured(
                before.index,
                build_of(store@, ids@, schema@, old(budget).room()),
            ) {
                Ok(index) => {
                    assert(after =~= TableCacheView { index, ..before });
                },
                Err(_) => {},
            }
        }
        found
    }

    /// The stored row with a key, by the index kept for this state. The
    /// group that the row stands in is kept for the next row.
    pub fn checkpointed_node_row(
        state: &PublishedState,
        publication: u64,
        registry: &mut PkRegistry,
        store: &GroupStore,
        table: &str,
        key: &Value,
        budget: &mut MemoryBudget,
    ) -> (result: DevonResult<PkIndexResult<Vec<Value>>>)
        requires
            old(registry).wf(),
            store.wf(),
            catalog::node_of(state.catalog@, table@) matches Some(entry) ==> cache_at(
                old(registry)@,
                publication,
                entry.schema.name,
            ).faithful(store@, schema::types_of(entry.schema.columns)) && kept_charge(
                cache_at(old(registry)@, publication, entry.schema.name).decoded,
            ) <= old(budget).charged_of(),
        ensures
            final(registry).wf(),
            final(budget).limit_of() == old(budget).limit_of(),
            match catalog::node_of(state.catalog@, table@) {
                None => result == Ok::<PkIndexResult<Vec<Value>>, crate::error::DevonError>(
                    PkIndexResult::Indexed(None),
                ) && final(registry)@ == old(registry)@ && final(budget).charged_of() == old(
                    budget,
                ).charged_of(),
                Some(entry) => {
                    let before = cache_at(old(registry)@, publication, entry.schema.name);
                    let after = cache_at(final(registry)@, publication, entry.schema.name);
                    let build = build_of(
                        store@,
                        stored_ids(state.catalog@, entry.schema.name),
                        entry.schema,
                        old(budget).room(),
                    );
                    &&& final(registry)@ == with_cache(
                        old(registry)@,
                        publication,
                        entry.schema.name,
                        after,
                    )
                    &&& after.faithful(store@, schema::types_of(entry.schema.columns))
                    &&& final(budget).charged_of() - after.charge() == old(budget).charged_of()
                        - before.charge()
                    &&& match ensured(before.index, build) {
                        Err(kind) => result is Err && result->Err_0.kind_of() == kind && after
                            == before,
                        Ok(index) => {
                            &&& after.index == index
                            &&& after.decoded == kept_by_lookup(
                                before,
                                index,
                                key@,
                                store@,
                                schema::types_of(entry.schema.columns),
                                old(budget).room(),
                            )
                            &&& row_found(
                                index,
                                key@,
                                store@,
                                schema::types_of(entry.schema.columns),
                                result,
                            )
                        },
                    }
                },
            },
    {
        let schema: &NodeTableSchema = match state.catalog.node_table(table) {
            Some(schema) => schema,
            None => {
                return Ok(PkIndexResult::Indexed(None));
            },
        };
        let none: Vec<u64> = Vec::new();
        let ids: &Vec<u64> = match state.catalog.table_storage(schema.name.as_str()) {
            Some(ids) => ids,
            None => &none,
        };
        assert(ids@ =~= stored_ids(state.catalog@, schema@.name));
        let ghost first = registry@;
        let ghost (opened, spot) = with_set(first, publication);
        let ghost (tables, slot) = with_table(opened[spot].tables, schema@.name);
        let (at, set, place, cache) = registry.take(publication, &schema.name);
        proof {
            lemma_table_place(opened[spot].tables, schema@.name, 0);
            assert(tables_of(set.tables@).len() == tables.len() - 1);
        }
        let mut cache: TablePkCache = cache;
        let found: DevonResult<PkIndexResult<Vec<Value>>> = cache.lookup_row(
            store,
            ids,
            schema,
            key,
            budget,
        );
        let ghost after = cache@;
        registry.put(at, set, place, cache);
        proof {
            assert(tables.remove(slot).insert(slot, after) =~= tables.update(slot, after));
            assert(registry@ =~= with_cache(first, publication, schema@.name, after));
            lemma_cache_reads_back(first, publication, schema@.name, after);
        }
        found
    }

    /// Whether an index of a table is kept for this state.
    pub fn checkpointed_pk_index_present(
        state: &PublishedState,
        publication: u64,
        registry: &PkRegistry,
        table: &str,
    ) -> (present: bool)
        requires
            registry.wf(),
        ensures
            present == (cache_at(
                registry@,
                publication,
                canonical(state.catalog@, table@),
            ).index is Ready),
    {
        let name: String = match state.catalog.node_table(table) {
            Some(schema) => schema.name.clone(),
            None => table.to_owned(),
        };
        let at: usize = match registry.find_set(publication) {
            Some(at) => at,
            None => {
                return false;
            },
        };
        let set: &PkCacheSet = &registry.sets[at];
        let ghost listed = tables_of(set.tables@);
        assert(registry@[at as int] == set.shown());
        let mut place: usize = 0;
        while place < set.tables.len()
            invariant
                place <= set.tables@.len(),
                listed == tables_of(set.tables@),
                set_place(registry@, publication, 0) == Some(at as nat),
                registry@[at as int].tables == listed,
                name@ == canonical(state.catalog@, table@),
                table_place(listed, name@, 0) == table_place(listed, name@, place as nat),
            decreases set.tables@.len() - place,
        {
            assert(listed[place as int] == set.tables@[place as int]@);
            if same_text(&set.tables[place].name, &name) {
                return set.tables[place].is_ready();
            }
            place += 1;
        }
        false
    }

    /// Shares what is kept for one state with the next, which has the same
    /// stored rows; what was kept for the next is let go of. After a
    /// checkpoint the stored rows differ, and nothing is shared.
    pub fn adopt_pk_caches(
        registry: &mut PkRegistry,
        prev: u64,
        next: u64,
        budget: &mut MemoryBudget,
    )
        requires
            old(registry).wf(),
        ensures
            final(registry).wf(),
            final(budget).limit_of() == old(budget).limit_of(),
            if prev == next || set_place(old(registry)@, prev, 0) is None {
                final(registry)@ == old(registry)@ && final(budget).charged_of() == old(
                    budget,
                ).charged_of()
            } else {
                let left = forgotten(old(registry)@, next);
                &&& final(registry)@ == shared_with(left, prev, next)
                &&& final(budget).charged_of() == chain::released(
                    old(budget).charged_of(),
                    forgotten_charge(old(registry)@, next),
                )
            },
    {
        if prev == next || registry.find_set(prev).is_none() {
            return;
        }
        registry.forget(next, budget);
        let at: usize = match registry.find_set(prev) {
            Some(at) => at,
            None => {
                return;
            },
        };
        let ghost before = registry@;
        assert(before[at as int] == registry.sets@[at as int].shown());
        let mut set: PkCacheSet = registry.sets.remove(at);
        set.publications.push(next);
        let ghost shown = set.shown();
        registry.sets.insert(at, set);
        assert(registry@ =~= before.update(at as int, shown));
    }
}

/// What is kept for one state, also for another.
pub open spec fn shared_with(sets: Seq<CacheSetView>, prev: u64, next: u64) -> Seq<CacheSetView> {
    match set_place(sets, prev, 0) {
        None => sets,
        Some(at) => sets.update(
            at as int,
            CacheSetView {
                publications: sets[at as int].publications.push(next),
                ..sets[at as int]
            },
        ),
    }
}

/// The name that a table is kept under: the one that the catalog has for it.
pub open spec fn canonical(catalog: catalog::CatalogView, table: Seq<char>) -> Seq<char> {
    match catalog::node_of(catalog, table) {
        Some(entry) => entry.schema.name,
        None => table,
    }
}

/// Sets with the same states are found alike.
proof fn lemma_same_set_place(
    a: Seq<CacheSetView>,
    b: Seq<CacheSetView>,
    publication: u64,
    from: nat,
)
    requires
        a.len() == b.len(),
        forall|i: int| 0 <= i < a.len() ==> (#[trigger] a[i]).publications == b[i].publications,
    ensures
        set_place(a, publication, from) == set_place(b, publication, from),
    decreases a.len() - from,
{
    if from < a.len() {
        assert(a[from as int].publications == b[from as int].publications);
        lemma_same_set_place(a, b, publication, from + 1);
    }
}

/// Tables with the same names are found alike.
proof fn lemma_same_table_place(
    a: Seq<TableCacheView>,
    b: Seq<TableCacheView>,
    name: Seq<char>,
    from: nat,
)
    requires
        a.len() == b.len(),
        forall|i: int| 0 <= i < a.len() ==> (#[trigger] a[i]).name == b[i].name,
    ensures
        table_place(a, name, from) == table_place(b, name, from),
    decreases a.len() - from,
{
    if from < a.len() {
        assert(a[from as int].name == b[from as int].name);
        lemma_same_table_place(a, b, name, from + 1);
    }
}

/// A state put at the end is found there.
proof fn lemma_pushed_set(sets: Seq<CacheSetView>, set: CacheSetView, publication: u64, from: nat)
    requires
        from <= sets.len(),
        set_place(sets, publication, from) is None,
        set.publications.contains(publication),
    ensures
        set_place(sets.push(set), publication, from) == Some(sets.len()),
    decreases sets.len() - from,
{
    if from < sets.len() {
        lemma_pushed_set(sets, set, publication, from + 1);
    }
}

/// A table put at the end is found there.
proof fn lemma_pushed_table(
    tables: Seq<TableCacheView>,
    cache: TableCacheView,
    name: Seq<char>,
    from: nat,
)
    requires
        from <= tables.len(),
        table_place(tables, name, from) is None,
        cache.name == name,
    ensures
        table_place(tables.push(cache), name, from) == Some(tables.len()),
    decreases tables.len() - from,
{
    if from < tables.len() {
        lemma_pushed_table(tables, cache, name, from + 1);
    }
}

/// A cache that was put is read back.
pub proof fn lemma_cache_reads_back(
    sets: Seq<CacheSetView>,
    publication: u64,
    name: Seq<char>,
    cache: TableCacheView,
)
    requires
        cache.name == name,
    ensures
        cache_at(with_cache(sets, publication, name, cache), publication, name) == cache,
{
    let (opened, at) = with_set(sets, publication);
    let (tables, place) = with_table(opened[at].tables, name);
    let after = with_cache(sets, publication, name, cache);
    lemma_set_place(sets, publication, 0);
    if set_place(sets, publication, 0) is None {
        let fresh = CacheSetView { publications: seq![publication], tables: Seq::empty() };
        assert(fresh.publications[0] == publication);
        lemma_pushed_set(sets, fresh, publication, 0);
    }
    assert(set_place(opened, publication, 0) == Some(at as nat));
    lemma_same_set_place(opened, after, publication, 0);
    lemma_table_place(opened[at].tables, name, 0);
    if table_place(opened[at].tables, name, 0) is None {
        lemma_pushed_table(opened[at].tables, TableCacheView::fresh(name), name, 0);
    }
    assert(table_place(tables, name, 0) == Some(place as nat));
    lemma_table_place(tables, name, 0);
    lemma_same_table_place(tables, tables.update(place, cache), name, 0);
}

/// A set without a state, put at the end, does not change where the state is found.
proof fn lemma_other_set_pushed(
    sets: Seq<CacheSetView>,
    set: CacheSetView,
    publication: u64,
    from: nat,
)
    requires
        from <= sets.len(),
        !set.publications.contains(publication),
    ensures
        set_place(sets.push(set), publication, from) == set_place(sets, publication, from),
    decreases sets.len() - from,
{
    if from < sets.len() {
        lemma_other_set_pushed(sets, set, publication, from + 1);
    } else {
        assert(set_place(sets.push(set), publication, from + 1) is None);
    }
}

/// A table of another name, put at the end, does not change where a table is found.
proof fn lemma_other_table_pushed(
    tables: Seq<TableCacheView>,
    cache: TableCacheView,
    name: Seq<char>,
    from: nat,
)
    requires
        from <= tables.len(),
        cache.name != name,
    ensures
        table_place(tables.push(cache), name, from) == table_place(tables, name, from),
    decreases tables.len() - from,
{
    if from < tables.len() {
        lemma_other_table_pushed(tables, cache, name, from + 1);
    } else {
        assert(table_place(tables.push(cache), name, from + 1) is None);
    }
}

/// Whether two states have one set.
pub open spec fn share_a_set(sets: Seq<CacheSetView>, a: u64, b: u64) -> bool {
    a == b || (set_place(sets, a, 0) is Some && set_place(sets, a, 0) == set_place(sets, b, 0))
}

/// What is kept for a table changes only what is kept for that table, and only for the states
/// that share it: every other cache stays as it was.
pub proof fn law_other_caches_stay(
    sets: Seq<CacheSetView>,
    publication: u64,
    name: Seq<char>,
    cache: TableCacheView,
    other_publication: u64,
    other_name: Seq<char>,
)
    requires
        cache.name == name,
        other_name != name || !share_a_set(sets, publication, other_publication),
    ensures
        cache_at(with_cache(sets, publication, name, cache), other_publication, other_name)
            == cache_at(sets, other_publication, other_name),
{
    let (opened, at) = with_set(sets, publication);
    let (tables, place) = with_table(opened[at].tables, name);
    let after = with_cache(sets, publication, name, cache);
    lemma_set_place(sets, publication, 0);
    lemma_set_place(sets, other_publication, 0);
    lemma_table_place(opened[at].tables, name, 0);
    lemma_same_set_place(opened, after, other_publication, 0);
    if set_place(sets, publication, 0) is None {
        let fresh = CacheSetView { publications: seq![publication], tables: Seq::empty() };
        assert(fresh.publications[0] == publication);
        if other_publication == publication {
            lemma_pushed_set(sets, fresh, publication, 0);
        } else {
            lemma_other_set_pushed(sets, fresh, other_publication, 0);
        }
    }
    if share_a_set(sets, publication, other_publication) {
        let known = opened[at].tables;
        if table_place(known, name, 0) is None {
            lemma_other_table_pushed(known, TableCacheView::fresh(name), other_name, 0);
        }
        lemma_same_table_place(tables, tables.update(place, cache), other_name, 0);
        lemma_table_place(known, other_name, 0);
        assert(set_place(after, other_publication, 0) == Some(at as nat));
        assert(after[at].tables == tables.update(place, cache));
    }
}

/// Another cache for a table changes what the tables are charged by what the two differ.
proof fn lemma_table_charge(tables: Seq<TableCacheView>, place: int, cache: TableCacheView)
    requires
        0 <= place < tables.len(),
    ensures
        tables_charge(tables.update(place, cache)) + tables[place].charge() == tables_charge(tables)
            + cache.charge(),
        tables[place].charge() <= tables_charge(tables),
    decreases tables.len(),
{
    let after = tables.update(place, cache);
    if place == tables.len() - 1 {
        assert(after.drop_last() == tables.drop_last());
    } else {
        lemma_table_charge(tables.drop_last(), place, cache);
        assert(after.drop_last() == tables.drop_last().update(place, cache));
    }
}

/// Another set changes what the sets are charged by what the two differ.
proof fn lemma_set_charge(sets: Seq<CacheSetView>, at: int, set: CacheSetView)
    requires
        0 <= at < sets.len(),
    ensures
        sets_charge(sets.update(at, set)) + tables_charge(sets[at].tables) == sets_charge(sets)
            + tables_charge(set.tables),
        tables_charge(sets[at].tables) <= sets_charge(sets),
    decreases sets.len(),
{
    let after = sets.update(at, set);
    if at == sets.len() - 1 {
        assert(after.drop_last() == sets.drop_last());
    } else {
        lemma_set_charge(sets.drop_last(), at, set);
        assert(after.drop_last() == sets.drop_last().update(at, set));
    }
}

/// What is kept for one table is part of all that is kept, and changing it changes the charge
/// for all by as much: where every change of a cache moves the budget alike, the budget keeps
/// covering all that is kept.
pub proof fn law_kept_charges_add_up(
    sets: Seq<CacheSetView>,
    publication: u64,
    name: Seq<char>,
    cache: TableCacheView,
)
    ensures
        cache_at(sets, publication, name).charge() <= sets_charge(sets),
        sets_charge(with_cache(sets, publication, name, cache)) + cache_at(
            sets,
            publication,
            name,
        ).charge() == sets_charge(sets) + cache.charge(),
{
    let (opened, at) = with_set(sets, publication);
    let known = opened[at].tables;
    let (tables, place) = with_table(known, name);
    lemma_set_place(sets, publication, 0);
    lemma_table_place(known, name, 0);
    if set_place(sets, publication, 0) is None {
        assert(opened.drop_last() == sets);
        assert(tables_charge(known) == 0);
    }
    assert(sets_charge(opened) == sets_charge(sets));
    if table_place(known, name, 0) is None {
        assert(tables.drop_last() == known);
    }
    assert(tables_charge(tables) == tables_charge(known));
    lemma_table_charge(tables, place, cache);
    lemma_set_charge(
        opened,
        at,
        (CacheSetView { tables: tables.update(place, cache), ..opened[at] }),
    );
}

/// Shedding twice does no more than shedding once: a second call finds nothing to give up, changes
/// nothing and gives nothing back, and no index is present behind the first.
pub proof fn law_second_shedding_finds_nothing(sets: Seq<CacheSetView>)
    ensures
        ({
            let shed = sets.map_values(|set: CacheSetView| shed_set(set));
            &&& !(exists|i: int| 0 <= i < shed.len() && set_holds(#[trigger] shed[i]))
            &&& shed.map_values(|set: CacheSetView| shed_set(set)) == shed
            &&& sets_charge(shed) == 0
            &&& forall|publication: u64, name: Seq<char>|
                !((#[trigger] cache_at(shed, publication, name)).index is Ready)
        }),
{
    let shed = sets.map_values(|set: CacheSetView| shed_set(set));
    lemma_shed_charges(sets);
    assert forall|i: int| 0 <= i < shed.len() implies !set_holds(#[trigger] shed[i]) && shed_set(
        shed[i],
    ) == shed[i] by {
        assert(shed[i] == shed_set(sets[i]));
        assert(shed_set(shed[i]).tables =~= shed[i].tables);
    }
    assert(shed.map_values(|set: CacheSetView| shed_set(set)) =~= shed);
    assert forall|publication: u64, name: Seq<char>|
        !((#[trigger] cache_at(shed, publication, name)).index is Ready) by {
        let (opened, at) = with_set(shed, publication);
        lemma_set_place(shed, publication, 0);
        lemma_table_place(opened[at].tables, name, 0);
        if at < shed.len() {
            assert(opened[at] == shed_set(sets[at]));
        }
    }
}

/// Shedding changes no answer: where an index was kept, built from the stored rows, a lookup after
/// it was given up says of every key what it said before, or that the index is not available.
pub proof fn law_lookup_after_shedding(
    store: Map<u64, GroupView>,
    ids: Seq<u64>,
    schema: NodeSchemaView,
    before: TableCacheView,
    first_room: int,
    room: int,
    key: ValueView,
)
    requires
        before.index is Ready,
        build_of(store, ids, schema, first_room) matches Built::Going(index, _) && before.index
            == IndexStateView::Ready(index),
    ensures
        match ensured(shed_table(before).index, build_of(store, ids, schema, room)) {
            Ok(after) => offset_of(after, key) == offset_of(before.index, key) || offset_of(
                after,
                key,
            ) is Unavailable,
            Err(_) => false,
        },
{
    let column = node_table::key_column(schema.columns, 0)->Some_0;
    pk_index::lemma_built_in_any_room(
        store,
        ids,
        schema::types_of(schema.columns),
        column as int,
        first_room,
        room,
        ids.len(),
    );
}

/// A state that shares a set is found there.
proof fn lemma_shared_place(sets: Seq<CacheSetView>, prev: u64, next: u64, at: nat, from: nat)
    requires
        set_place(sets, prev, 0) == Some(at),
        set_place(sets, prev, from) == Some(at),
        set_place(sets, next, from) is None,
    ensures
        set_place(shared_with(sets, prev, next), next, from) == Some(at),
    decreases sets.len() - from,
{
    lemma_set_place(sets, prev, 0);
    lemma_set_place(sets, prev, from);
    let shared = shared_with(sets, prev, next);
    if from == at {
        let listed = sets[at as int].publications;
        assert(listed.push(next)[listed.len() as int] == next);
        assert(shared[at as int].publications.contains(next));
    } else {
        assert(shared[from as int] == sets[from as int]);
        lemma_shared_place(sets, prev, next, at, from + 1);
    }
}

/// What is kept for a state is what is kept for the next, once it is shared.
pub proof fn law_adopted_caches_are_shared(
    sets: Seq<CacheSetView>,
    prev: u64,
    next: u64,
    name: Seq<char>,
)
    requires
        set_place(sets, prev, 0) is Some,
        set_place(sets, next, 0) is None,
    ensures
        cache_at(shared_with(sets, prev, next), next, name) == cache_at(sets, prev, name),
{
    let at = set_place(sets, prev, 0)->Some_0;
    lemma_set_place(sets, prev, 0);
    lemma_shared_place(sets, prev, next, at, 0);
}

} // verus!
