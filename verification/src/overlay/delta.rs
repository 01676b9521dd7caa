//! What one commit changes.

use vstd::prelude::*;

use crate::error::{budget_exceeded, corrupt, DevonError, DevonResult, ErrorKind};
use crate::groups;
use crate::groups::values_tally;
use crate::names::NameMap;
use crate::overlay::{RelEndpointTombstones, TombstonesView};
use crate::picked;
use crate::rel_table::edges::RelationshipView;
use crate::schema;
use crate::schema::ColumnDef;
use crate::tally::Tally;
use crate::text::with_number;
use crate::txn_log;
use crate::txn_log::{
    CommittedGroup, DdlPayload, DdlView, GroupView, PayloadView, RelEndpoint, WalPayload,
};
use crate::types;
use crate::types::{text_len, Value, ValueView};

verus! {

broadcast use vstd::std_specs::btree::group_btree_axioms;

/// Estimated bytes of a commit link and its shared header.
pub const COMMIT_LINK_OVERHEAD_BYTES: usize = 128;

/// Estimated bytes of the maps and lists of a commit delta.
pub const COMMIT_DELTA_OVERHEAD_BYTES: usize = 96;

/// Estimated bytes of a map entry and the list that it holds.
pub const MAP_ENTRY_OVERHEAD_BYTES: usize = 64;

/// Estimated bytes of the list that a row is.
pub const ROW_OVERHEAD_BYTES: usize = 24;

/// Estimated bytes of an edge and the list of its values.
pub const OVERLAY_EDGE_OVERHEAD_BYTES: usize = 40;

/// Estimated bytes of the two sets of gone endpoints.
pub const REL_ENDPOINT_TOMBSTONES_OVERHEAD_BYTES: usize = 48;

/// Estimated bytes of a gone endpoint.
pub const REL_TOMBSTONE_OFFSET_OVERHEAD_BYTES: usize = 40;

/// Estimated bytes of a schema change and its lists.
pub const DDL_OP_OVERHEAD_BYTES: usize = 96;

/// Estimated bytes of a column and its name.
pub const SCHEMA_COLUMN_OVERHEAD_BYTES: usize = 48;

/// An edge that a commit inserted.
#[derive(Debug, PartialEq, Eq)]
pub struct OverlayEdge {
    /// The source row.
    pub from: u64,
    /// The destination row.
    pub to: u64,
    /// The property values in column order.
    pub values: Vec<Value>,
}

impl View for OverlayEdge {
    type V = RelationshipView;

    open spec fn view(&self) -> RelationshipView {
        RelationshipView { from: self.from, to: self.to, values: types::views(self.values@) }
    }
}

/// What edges say.
pub open spec fn edges_of(edges: Seq<OverlayEdge>) -> Seq<RelationshipView> {
    edges.map_values(|edge: OverlayEdge| edge@)
}

/// A schema change that was committed.
#[derive(Debug, PartialEq, Eq)]
pub enum DdlOp {
    CreateNodeTable(schema::NodeTableSchema),
    CreateRelTable(schema::RelTableSchema),
}

impl View for DdlOp {
    type V = DdlView;

    open spec fn view(&self) -> DdlView {
        match self {
            DdlOp::CreateNodeTable(schema) => DdlView::CreateNodeTable(schema@),
            DdlOp::CreateRelTable(schema) => DdlView::CreateRelTable(schema@),
        }
    }
}

/// What schema changes say.
pub open spec fn ddl_of(changes: Seq<DdlOp>) -> Seq<DdlView> {
    changes.map_values(|change: DdlOp| change@)
}

impl DdlOp {
    /// The change that a record of the log says.
    pub fn from_payload(payload: DdlPayload) -> (change: DdlOp)
        ensures
            change@ == payload@,
    {
        match payload {
            DdlPayload::CreateNodeTable(schema) => DdlOp::CreateNodeTable(schema),
            DdlPayload::CreateRelTable(schema) => DdlOp::CreateRelTable(schema),
        }
    }
}

/// The rows, edges, tombstones and schema changes of one commit.
#[derive(Debug)]
pub struct CommitDelta {
    /// Per node table, the inserted rows in order.
    pub nodes: NameMap<Vec<Vec<Value>>>,
    /// Per node table, the rows that replace others with their key.
    pub node_updates: NameMap<Vec<Vec<Value>>>,
    /// Per node table, the deleted keys.
    pub node_deletes: NameMap<Vec<Value>>,
    /// Per relationship table, the inserted edges in order.
    pub edges: NameMap<Vec<OverlayEdge>>,
    /// Per relationship table, the endpoints whose edges are gone.
    pub rel_tombstones: NameMap<RelEndpointTombstones>,
    /// The schema changes in order.
    pub ddl: Vec<DdlOp>,
}

/// What a commit changes.
#[verifier::ext_equal]
pub struct DeltaView {
    pub nodes: Map<Seq<char>, Seq<Seq<ValueView>>>,
    pub node_updates: Map<Seq<char>, Seq<Seq<ValueView>>>,
    pub node_deletes: Map<Seq<char>, Seq<ValueView>>,
    pub edges: Map<Seq<char>, Seq<RelationshipView>>,
    pub rel_tombstones: Map<Seq<char>, TombstonesView>,
    pub ddl: Seq<DdlView>,
}

/// What rows under names say.
pub open spec fn rows_by_name(map: Map<Seq<char>, Vec<Vec<Value>>>) -> Map<
    Seq<char>,
    Seq<Seq<ValueView>>,
> {
    map.map_values(|rows: Vec<Vec<Value>>| groups::rows_of(rows@))
}

/// What values under names say.
pub open spec fn values_by_name(map: Map<Seq<char>, Vec<Value>>) -> Map<
    Seq<char>,
    Seq<ValueView>,
> {
    map.map_values(|values: Vec<Value>| types::views(values@))
}

/// What edges under names say.
pub open spec fn edges_by_name(map: Map<Seq<char>, Vec<OverlayEdge>>) -> Map<
    Seq<char>,
    Seq<RelationshipView>,
> {
    map.map_values(|edges: Vec<OverlayEdge>| edges_of(edges@))
}

/// What tombstones under names say.
pub open spec fn tombstones_by_name(map: Map<Seq<char>, RelEndpointTombstones>) -> Map<
    Seq<char>,
    TombstonesView,
> {
    map.map_values(|gone: RelEndpointTombstones| gone@)
}

impl View for CommitDelta {
    type V = DeltaView;

    open spec fn view(&self) -> DeltaView {
        DeltaView {
            nodes: rows_by_name(self.nodes@),
            node_updates: rows_by_name(self.node_updates@),
            node_deletes: values_by_name(self.node_deletes@),
            edges: edges_by_name(self.edges@),
            rel_tombstones: tombstones_by_name(self.rel_tombstones@),
            ddl: ddl_of(self.ddl@),
        }
    }
}

/// What a name has, nothing where it is not there.
pub open spec fn list_at<T>(map: Map<Seq<char>, Seq<T>>, name: Seq<char>) -> Seq<T> {
    if map.contains_key(name) {
        map[name]
    } else {
        Seq::empty()
    }
}

/// The map with one item more under a name.
pub open spec fn appended<T>(map: Map<Seq<char>, Seq<T>>, name: Seq<char>, item: T) -> Map<
    Seq<char>,
    Seq<T>,
> {
    map.insert(name, list_at(map, name).push(item))
}

/// The gone endpoints under a name, none where it is not there.
pub open spec fn gone_at(map: Map<Seq<char>, TombstonesView>, name: Seq<char>) -> TombstonesView {
    if map.contains_key(name) {
        map[name]
    } else {
        TombstonesView::none()
    }
}

/// The gone endpoints with one more.
pub open spec fn with_gone(
    gone: TombstonesView,
    endpoint: RelEndpoint,
    offset: u64,
) -> TombstonesView {
    match endpoint {
        RelEndpoint::From => TombstonesView { from: gone.from.insert(offset), ..gone },
        RelEndpoint::To => TombstonesView { to: gone.to.insert(offset), ..gone },
    }
}

impl DeltaView {
    /// Nothing changes.
    pub open spec fn none() -> DeltaView {
        DeltaView {
            nodes: Map::empty(),
            node_updates: Map::empty(),
            node_deletes: Map::empty(),
            edges: Map::empty(),
            rel_tombstones: Map::empty(),
            ddl: Seq::empty(),
        }
    }

    /// With what one record says; a commit record says nothing of this
    /// kind.
    pub open spec fn with(self, record: PayloadView) -> Option<DeltaView> {
        match record {
            PayloadView::NodeInsert { table, row } => Some(
                DeltaView { nodes: appended(self.nodes, table, row), ..self },
            ),
            PayloadView::RelInsert { rel, from, to, values } => Some(
                DeltaView {
                    edges: appended(self.edges, rel, RelationshipView { from, to, values }),
                    ..self
                },
            ),
            PayloadView::NodeUpdate { table, row } => Some(
                DeltaView { node_updates: appended(self.node_updates, table, row), ..self },
            ),
            PayloadView::RelDelete { rel, endpoint, offset } => Some(
                DeltaView {
                    rel_tombstones: self.rel_tombstones.insert(
                        rel,
                        with_gone(gone_at(self.rel_tombstones, rel), endpoint, offset),
                    ),
                    ..self
                },
            ),
            PayloadView::NodeDelete { table, key } => Some(
                DeltaView { node_deletes: appended(self.node_deletes, table, key), ..self },
            ),
            PayloadView::Ddl(change) => Some(DeltaView { ddl: self.ddl.push(change), ..self }),
            PayloadView::Commit { .. } => None,
        }
    }
}

/// What the first `n` records change together; nothing where one is a
/// commit.
pub open spec fn changes_of(records: Seq<PayloadView>, n: nat) -> Option<DeltaView>
    decreases n,
{
    if n == 0 {
        Some(DeltaView::none())
    } else {
        match changes_of(records, (n - 1) as nat) {
            None => None,
            Some(before) => before.with(records[n - 1]),
        }
    }
}

/// A commit record among the first is not made good by more records.
proof fn lemma_changes_fail(records: Seq<PayloadView>, at: nat, n: nat)
    requires
        at <= n,
        changes_of(records, at) is None,
    ensures
        changes_of(records, n) is None,
    decreases n,
{
    if at < n {
        lemma_changes_fail(records, at, (n - 1) as nat);
    }
}

/// The row that a record inserts into a table, if it does.
pub open spec fn inserted_row(record: PayloadView, name: Seq<char>) -> Option<Seq<ValueView>> {
    if record is NodeInsert && record->NodeInsert_table == name {
        Some(record->NodeInsert_row)
    } else {
        None
    }
}

/// The row that a record puts in the place of another of a table, if it does.
pub open spec fn updated_row(record: PayloadView, name: Seq<char>) -> Option<Seq<ValueView>> {
    if record is NodeUpdate && record->NodeUpdate_table == name {
        Some(record->NodeUpdate_row)
    } else {
        None
    }
}

/// The key that a record deletes from a table, if it does.
pub open spec fn deleted_key(record: PayloadView, name: Seq<char>) -> Option<ValueView> {
    if record is NodeDelete && record->NodeDelete_table == name {
        Some(record->NodeDelete_key)
    } else {
        None
    }
}

/// The edge that a record inserts into a table, if it does.
pub open spec fn inserted_edge(record: PayloadView, name: Seq<char>) -> Option<RelationshipView> {
    if record is RelInsert && record->RelInsert_rel == name {
        Some(
            RelationshipView {
                from: record->RelInsert_from,
                to: record->RelInsert_to,
                values: record->RelInsert_values,
            },
        )
    } else {
        None
    }
}

/// The schema change that a record makes, if it does.
pub open spec fn made_change(record: PayloadView) -> Option<DdlView> {
    if record is Ddl {
        Some(record->Ddl_0)
    } else {
        None
    }
}

/// Records change something together exactly where none of them is a commit.
pub proof fn law_commits_are_no_changes(records: Seq<PayloadView>, n: nat)
    requires
        n <= records.len(),
    ensures
        changes_of(records, n) is Some <==> forall|k: int|
            0 <= k < n ==> !((#[trigger] records[k]) is Commit),
    decreases n,
{
    if n > 0 {
        law_commits_are_no_changes(records, (n - 1) as nat);
    }
}

/// A delta lists, per table, every row, edge and key that its records say, in the order of the
/// records and as often as they say it, and every schema change.
pub proof fn law_delta_lists_every_record(records: Seq<PayloadView>, name: Seq<char>)
    requires
        changes_of(records, records.len()) is Some,
    ensures
        ({
            let delta = changes_of(records, records.len())->Some_0;
            &&& picked::gives(
                list_at(delta.nodes, name),
                records,
                |record: PayloadView| inserted_row(record, name),
            )
            &&& picked::gives(
                list_at(delta.node_updates, name),
                records,
                |record: PayloadView| updated_row(record, name),
            )
            &&& picked::gives(
                list_at(delta.node_deletes, name),
                records,
                |record: PayloadView| deleted_key(record, name),
            )
            &&& picked::gives(
                list_at(delta.edges, name),
                records,
                |record: PayloadView| inserted_edge(record, name),
            )
            &&& picked::gives(delta.ddl, records, |record: PayloadView| made_change(record))
        }),
    decreases records.len(),
{
    let rows = |record: PayloadView| inserted_row(record, name);
    let updates = |record: PayloadView| updated_row(record, name);
    let deletes = |record: PayloadView| deleted_key(record, name);
    let edges = |record: PayloadView| inserted_edge(record, name);
    let changes = |record: PayloadView| made_change(record);
    let delta = changes_of(records, records.len())->Some_0;
    if records.len() == 0 {
        picked::lemma_gives_none(records, rows);
        picked::lemma_gives_none(records, updates);
        picked::lemma_gives_none(records, deletes);
        picked::lemma_gives_none(records, edges);
        picked::lemma_gives_none(records, changes);
    } else {
        let rest = records.drop_last();
        let last = records.last();
        lemma_same_changes(rest, records, rest.len());
        law_delta_lists_every_record(rest, name);
        assert(records =~= rest.push(last));
        let before = changes_of(rest, rest.len())->Some_0;
        picked::lemma_gives_more(list_at(before.nodes, name), rest, rows, last);
        picked::lemma_gives_more(list_at(before.node_updates, name), rest, updates, last);
        picked::lemma_gives_more(list_at(before.node_deletes, name), rest, deletes, last);
        picked::lemma_gives_more(list_at(before.edges, name), rest, edges, last);
        picked::lemma_gives_more(before.ddl, rest, changes, last);
    }
}

/// What the first records change does not depend on those behind them.
proof fn lemma_same_changes(a: Seq<PayloadView>, b: Seq<PayloadView>, n: nat)
    requires
        n <= a.len(),
        n <= b.len(),
        forall|k: int| 0 <= k < n ==> a[k] == b[k],
    ensures
        changes_of(a, n) == changes_of(b, n),
    decreases n,
{
    if n > 0 {
        lemma_same_changes(a, b, (n - 1) as nat);
    }
}

/// Whether one of the records deletes an endpoint of a relationship table.
pub open spec fn deletes_endpoint(
    records: Seq<PayloadView>,
    name: Seq<char>,
    endpoint: RelEndpoint,
    offset: u64,
) -> bool {
    exists|k: int|
        0 <= k < records.len() && #[trigger] records[k] == (PayloadView::RelDelete {
            rel: name,
            endpoint,
            offset,
        })
}

/// An endpoint of a relationship table is gone in a delta exactly where one of its records deletes
/// it: no later record brings one back.
pub proof fn law_gone_endpoints_are_those_deleted(
    records: Seq<PayloadView>,
    name: Seq<char>,
    offset: u64,
)
    requires
        changes_of(records, records.len()) is Some,
    ensures
        ({
            let gone = gone_at(changes_of(records, records.len())->Some_0.rel_tombstones, name);
            &&& gone.from.contains(offset) <==> deletes_endpoint(
                records,
                name,
                RelEndpoint::From,
                offset,
            )
            &&& gone.to.contains(offset) <==> deletes_endpoint(
                records,
                name,
                RelEndpoint::To,
                offset,
            )
        }),
    decreases records.len(),
{
    if records.len() > 0 {
        let rest = records.drop_last();
        lemma_same_changes(rest, records, rest.len());
        law_gone_endpoints_are_those_deleted(rest, name, offset);
        assert(records =~= rest.push(records.last()));
        lemma_deletes_more(rest, records.last(), name, RelEndpoint::From, offset);
        lemma_deletes_more(rest, records.last(), name, RelEndpoint::To, offset);
    }
}

proof fn lemma_deletes_more(
    records: Seq<PayloadView>,
    record: PayloadView,
    name: Seq<char>,
    endpoint: RelEndpoint,
    offset: u64,
)
    ensures
        deletes_endpoint(records.push(record), name, endpoint, offset) <==> deletes_endpoint(
            records,
            name,
            endpoint,
            offset,
        ) || record == (PayloadView::RelDelete { rel: name, endpoint, offset }),
{
    let wanted = PayloadView::RelDelete { rel: name, endpoint, offset };
    let more = records.push(record);
    if deletes_endpoint(records, name, endpoint, offset) {
        let k = choose|k: int| 0 <= k < records.len() && #[trigger] records[k] == wanted;
        assert(more[k] == wanted);
    }
    if record == wanted {
        assert(more[records.len() as int] == wanted);
    }
    if deletes_endpoint(more, name, endpoint, offset) {
        let k = choose|k: int| 0 <= k < more.len() && #[trigger] more[k] == wanted;
        if k < records.len() {
            assert(records[k] == wanted);
        }
    }
}

fn push_row(map: &mut NameMap<Vec<Vec<Value>>>, name: String, row: Vec<Value>)
    requires
        old(map).wf(),
    ensures
        final(map).wf(),
        rows_by_name(final(map)@) == appended(
            rows_by_name(old(map)@),
            name@,
            types::views(row@),
        ),
{
    let ghost before = map@;
    let ghost shown = name@;
    let ghost added = types::views(row@);
    let mut rows: Vec<Vec<Value>> = match map.remove(name.as_str()) {
        Some(rows) => rows,
        None => Vec::new(),
    };
    let ghost found = groups::rows_of(rows@);
    assert(found =~= list_at(rows_by_name(before), shown));
    rows.push(row);
    assert(groups::rows_of(rows@) =~= found.push(added));
    map.insert(name, rows);
    assert(rows_by_name(map@) =~= appended(rows_by_name(before), shown, added));
}

fn push_value(map: &mut NameMap<Vec<Value>>, name: String, value: Value)
    requires
        old(map).wf(),
    ensures
        final(map).wf(),
        values_by_name(final(map)@) == appended(values_by_name(old(map)@), name@, value@),
{
    let ghost before = map@;
    let ghost shown = name@;
    let ghost added = value@;
    let mut values: Vec<Value> = match map.remove(name.as_str()) {
        Some(values) => values,
        None => Vec::new(),
    };
    let ghost found = types::views(values@);
    assert(found =~= list_at(values_by_name(before), shown));
    values.push(value);
    assert(types::views(values@) =~= found.push(added));
    map.insert(name, values);
    assert(values_by_name(map@) =~= appended(values_by_name(before), shown, added));
}

fn push_edge(map: &mut NameMap<Vec<OverlayEdge>>, name: String, edge: OverlayEdge)
    requires
        old(map).wf(),
    ensures
        final(map).wf(),
        edges_by_name(final(map)@) == appended(edges_by_name(old(map)@), name@, edge@),
{
    let ghost before = map@;
    let ghost shown = name@;
    let ghost added = edge@;
    let mut edges: Vec<OverlayEdge> = match map.remove(name.as_str()) {
        Some(edges) => edges,
        None => Vec::new(),
    };
    let ghost found = edges_of(edges@);
    assert(found =~= list_at(edges_by_name(before), shown));
    edges.push(edge);
    assert(edges_of(edges@) =~= found.push(added));
    map.insert(name, edges);
    assert(edges_by_name(map@) =~= appended(edges_by_name(before), shown, added));
}

fn push_gone(
    map: &mut NameMap<RelEndpointTombstones>,
    name: String,
    endpoint: RelEndpoint,
    offset: u64,
)
    requires
        old(map).wf(),
    ensures
        final(map).wf(),
        tombstones_by_name(final(map)@) == tombstones_by_name(old(map)@).insert(
            name@,
            with_gone(gone_at(tombstones_by_name(old(map)@), name@), endpoint, offset),
        ),
{
    let ghost before = map@;
    let ghost shown = name@;
    let mut gone: RelEndpointTombstones = match map.remove(name.as_str()) {
        Some(gone) => gone,
        None => RelEndpointTombstones::new(),
    };
    let ghost found = gone@;
    assert(found =~= gone_at(tombstones_by_name(before), shown));
    match endpoint {
        RelEndpoint::From => {
            gone.from_offsets.insert(offset);
        },
        RelEndpoint::To => {
            gone.to_offsets.insert(offset);
        },
    }
    assert(gone@ =~= with_gone(found, endpoint, offset));
    map.insert(name, gone);
    assert(tombstones_by_name(map@) =~= tombstones_by_name(before).insert(
        shown,
        with_gone(found, endpoint, offset),
    ));
}

fn too_many_bytes() -> (error: DevonError)
    ensures
        error.kind_of() == ErrorKind::BudgetExceeded,
{
    budget_exceeded("committed overlay byte estimate exceeds usize::MAX")
}

/// A tally as an estimate in memory.
pub(crate) fn estimated(tally: &Tally) -> (result: DevonResult<usize>)
    requires
        tally.wf(),
    ensures
        match result {
            Ok(bytes) => bytes == tally@,
            Err(error) => tally@ > usize::MAX && error.kind_of() == ErrorKind::BudgetExceeded,
        },
{
    match tally.size() {
        Some(bytes) => Ok(bytes),
        None => Err(too_many_bytes()),
    }
}

/// What holds bytes in memory.
pub trait Weighed: Sized {
    /// The estimated bytes.
    spec fn bytes(self) -> nat;

    /// The estimated bytes.
    fn tally(&self) -> (total: Tally)
        ensures
            total.wf(),
            total@ == self.bytes(),
    ;
}

impl Weighed for Vec<Value> {
    open spec fn bytes(self) -> nat {
        groups::values_bytes(types::views(self@))
    }

    fn tally(&self) -> (total: Tally) {
        values_tally(self)
    }
}

/// The estimated bytes of rows.
pub open spec fn rows_bytes(rows: Seq<Seq<ValueView>>) -> nat
    decreases rows.len(),
{
    if rows.len() == 0 {
        0
    } else {
        rows_bytes(rows.drop_last()) + ROW_OVERHEAD_BYTES as nat + groups::values_bytes(rows.last())
    }
}

impl Weighed for Vec<Vec<Value>> {
    open spec fn bytes(self) -> nat {
        rows_bytes(groups::rows_of(self@))
    }

    fn tally(&self) -> (total: Tally) {
        let ghost shown = groups::rows_of(self@);
        let mut total: Tally = Tally::of(0);
        let mut i: usize = 0;
        assert(shown.subrange(0, 0) =~= Seq::empty());
        while i < self.len()
            invariant
                i <= self@.len(),
                shown == groups::rows_of(self@),
                total.wf(),
                total@ == rows_bytes(shown.subrange(0, i as int)),
            decreases self@.len() - i,
        {
            proof {
                let next = shown.subrange(0, i + 1);
                assert(next.drop_last() =~= shown.subrange(0, i as int));
                assert(next.last() == types::views(self@[i as int]@));
            }
            total = total.plus(&Tally::of(ROW_OVERHEAD_BYTES as u64)).plus(&values_tally(&self[i]));
            i += 1;
        }
        assert(shown.subrange(0, shown.len() as int) =~= shown);
        total
    }
}

/// The estimated bytes of edges.
pub open spec fn edges_bytes(edges: Seq<RelationshipView>) -> nat
    decreases edges.len(),
{
    if edges.len() == 0 {
        0
    } else {
        edges_bytes(edges.drop_last()) + OVERLAY_EDGE_OVERHEAD_BYTES as nat + groups::values_bytes(
            edges.last().values,
        )
    }
}

impl Weighed for Vec<OverlayEdge> {
    open spec fn bytes(self) -> nat {
        edges_bytes(edges_of(self@))
    }

    fn tally(&self) -> (total: Tally) {
        let ghost shown = edges_of(self@);
        let mut total: Tally = Tally::of(0);
        let mut i: usize = 0;
        assert(shown.subrange(0, 0) =~= Seq::empty());
        while i < self.len()
            invariant
                i <= self@.len(),
                shown == edges_of(self@),
                total.wf(),
                total@ == edges_bytes(shown.subrange(0, i as int)),
            decreases self@.len() - i,
        {
            proof {
                let next = shown.subrange(0, i + 1);
                assert(next.drop_last() =~= shown.subrange(0, i as int));
                assert(next.last() == self@[i as int]@);
            }
            total = total.plus(&Tally::of(OVERLAY_EDGE_OVERHEAD_BYTES as u64)).plus(
                &values_tally(&self[i].values),
            );
            i += 1;
        }
        assert(shown.subrange(0, shown.len() as int) =~= shown);
        total
    }
}

/// The estimated bytes of gone endpoints.
pub open spec fn gone_bytes(gone: TombstonesView) -> nat {
    REL_ENDPOINT_TOMBSTONES_OVERHEAD_BYTES as nat + (gone.from.len() + gone.to.len())
        * REL_TOMBSTONE_OFFSET_OVERHEAD_BYTES as nat
}

impl Weighed for RelEndpointTombstones {
    open spec fn bytes(self) -> nat {
        gone_bytes(self@)
    }

    fn tally(&self) -> (total: Tally) {
        let from: Tally = Tally::of(self.from_offsets.len() as u64);
        let to: Tally = Tally::of(self.to_offsets.len() as u64);
        let offsets: Tally = from.plus(&to).times(REL_TOMBSTONE_OFFSET_OVERHEAD_BYTES as u64);
        Tally::of(REL_ENDPOINT_TOMBSTONES_OVERHEAD_BYTES as u64).plus(&offsets)
    }
}

impl RelEndpointTombstones {
    /// The bytes that this takes in memory, by estimate.
    pub fn estimated_bytes(&self) -> (result: DevonResult<usize>)
        ensures
            match result {
                Ok(bytes) => bytes == gone_bytes(self@),
                Err(error) => gone_bytes(self@) > usize::MAX && error.kind_of()
                    == ErrorKind::BudgetExceeded,
            },
    {
        estimated(&self.tally())
    }
}

/// The estimated bytes of items under names.
pub open spec fn named_bytes<T: Weighed>(entries: Seq<(Seq<char>, T)>) -> nat
    decreases entries.len(),
{
    if entries.len() == 0 {
        0
    } else {
        named_bytes(entries.drop_last()) + MAP_ENTRY_OVERHEAD_BYTES as nat
            + vstd::utf8::encode_utf8(entries.last().0).len() + entries.last().1.bytes()
    }
}

/// The estimated bytes of a map.
pub fn map_tally<T: Weighed>(map: &NameMap<T>) -> (total: Tally)
    requires
        map.wf(),
    ensures
        total.wf(),
        total@ == named_bytes(map.entries()),
{
    let ghost entries = map.entries();
    let mut total: Tally = Tally::of(0);
    let mut i: usize = 0;
    assert(entries.subrange(0, 0) =~= Seq::empty());
    while i < map.len()
        invariant
            map.wf(),
            entries == map.entries(),
            i <= entries.len(),
            total.wf(),
            total@ == named_bytes(entries.subrange(0, i as int)),
        decreases entries.len() - i,
    {
        proof {
            let next = entries.subrange(0, i + 1);
            assert(next.drop_last() =~= entries.subrange(0, i as int));
        }
        let name: Tally = Tally::of(text_len(map.name_at(i)) as u64);
        total = total.plus(&Tally::of(MAP_ENTRY_OVERHEAD_BYTES as u64)).plus(&name).plus(
            &map.item_at(i).tally(),
        );
        i += 1;
    }
    assert(entries.subrange(0, entries.len() as int) =~= entries);
    total
}

/// The estimated bytes of columns.
pub open spec fn columns_bytes(columns: Seq<schema::ColumnView>) -> nat
    decreases columns.len(),
{
    if columns.len() == 0 {
        0
    } else {
        columns_bytes(columns.drop_last()) + SCHEMA_COLUMN_OVERHEAD_BYTES as nat
            + vstd::utf8::encode_utf8(columns.last().name).len()
    }
}

fn columns_tally(columns: &Vec<ColumnDef>) -> (total: Tally)
    ensures
        total.wf(),
        total@ == columns_bytes(schema::columns_of(columns@)),
{
    let ghost shown = schema::columns_of(columns@);
    let mut total: Tally = Tally::of(0);
    let mut i: usize = 0;
    assert(shown.subrange(0, 0) =~= Seq::empty());
    while i < columns.len()
        invariant
            i <= columns@.len(),
            shown == schema::columns_of(columns@),
            total.wf(),
            total@ == columns_bytes(shown.subrange(0, i as int)),
        decreases columns@.len() - i,
    {
        proof {
            let next = shown.subrange(0, i + 1);
            assert(next.drop_last() =~= shown.subrange(0, i as int));
            assert(next.last() == columns@[i as int]@);
        }
        total = total.plus(&Tally::of(SCHEMA_COLUMN_OVERHEAD_BYTES as u64)).plus(
            &Tally::of(text_len(columns[i].name.as_str()) as u64),
        );
        i += 1;
    }
    assert(shown.subrange(0, shown.len() as int) =~= shown);
    total
}

/// The estimated bytes of a schema change.
pub open spec fn change_bytes(change: DdlView) -> nat {
    match change {
        DdlView::CreateNodeTable(schema) => vstd::utf8::encode_utf8(schema.name).len()
            + columns_bytes(schema.columns),
        DdlView::CreateRelTable(schema) => vstd::utf8::encode_utf8(schema.name).len()
            + vstd::utf8::encode_utf8(schema.from).len() + vstd::utf8::encode_utf8(schema.to).len()
            + columns_bytes(schema.columns),
    }
}

/// The estimated bytes of schema changes.
pub open spec fn changes_bytes(changes: Seq<DdlView>) -> nat
    decreases changes.len(),
{
    if changes.len() == 0 {
        0
    } else {
        changes_bytes(changes.drop_last()) + DDL_OP_OVERHEAD_BYTES as nat + change_bytes(
            changes.last(),
        )
    }
}

fn change_tally(change: &DdlOp) -> (total: Tally)
    ensures
        total.wf(),
        total@ == change_bytes(change@),
{
    match change {
        DdlOp::CreateNodeTable(schema) => Tally::of(text_len(schema.name.as_str()) as u64).plus(
            &columns_tally(&schema.columns),
        ),
        DdlOp::CreateRelTable(schema) => Tally::of(text_len(schema.name.as_str()) as u64).plus(
            &Tally::of(text_len(schema.from.as_str()) as u64),
        ).plus(&Tally::of(text_len(schema.to.as_str()) as u64)).plus(
            &columns_tally(&schema.columns),
        ),
    }
}

fn changes_tally(changes: &Vec<DdlOp>) -> (total: Tally)
    ensures
        total.wf(),
        total@ == changes_bytes(ddl_of(changes@)),
{
    let ghost shown = ddl_of(changes@);
    let mut total: Tally = Tally::of(0);
    let mut i: usize = 0;
    assert(shown.subrange(0, 0) =~= Seq::empty());
    while i < changes.len()
        invariant
            i <= changes@.len(),
            shown == ddl_of(changes@),
            total.wf(),
            total@ == changes_bytes(shown.subrange(0, i as int)),
        decreases changes@.len() - i,
    {
        proof {
            let next = shown.subrange(0, i + 1);
            assert(next.drop_last() =~= shown.subrange(0, i as int));
            assert(next.last() == changes@[i as int]@);
        }
        total = total.plus(&Tally::of(DDL_OP_OVERHEAD_BYTES as u64)).plus(
            &change_tally(&changes[i]),
        );
        i += 1;
    }
    assert(shown.subrange(0, shown.len() as int) =~= shown);
    total
}

/// Where no record carries another position than the commit's.
pub open spec fn stamps_agree(group: GroupView) -> bool {
    forall|i: int|
        0 <= i < group.records.len() ==> (#[trigger] group.records[i]).0 == group.commit_lsn
}

/// The records of a transaction.
pub open spec fn records_of(group: GroupView) -> Seq<PayloadView> {
    group.records.map_values(|record: (u64, PayloadView)| record.1)
}

impl CommitDelta {
    /// The names of all maps are in order.
    pub open spec fn wf(self) -> bool {
        &&& self.nodes.wf()
        &&& self.node_updates.wf()
        &&& self.node_deletes.wf()
        &&& self.edges.wf()
        &&& self.rel_tombstones.wf()
    }

    /// The estimated bytes.
    pub open spec fn bytes(self) -> nat {
        COMMIT_DELTA_OVERHEAD_BYTES as nat + named_bytes(self.nodes.entries()) + named_bytes(
            self.node_updates.entries(),
        ) + named_bytes(self.node_deletes.entries()) + named_bytes(self.edges.entries())
            + named_bytes(self.rel_tombstones.entries()) + changes_bytes(ddl_of(self.ddl@))
    }

    /// Nothing changes.
    pub fn new() -> (delta: CommitDelta)
        ensures
            delta.wf(),
            delta@ == DeltaView::none(),
            delta.bytes() == COMMIT_DELTA_OVERHEAD_BYTES,
    {
        let delta = CommitDelta {
            nodes: NameMap::new(),
            node_updates: NameMap::new(),
            node_deletes: NameMap::new(),
            edges: NameMap::new(),
            rel_tombstones: NameMap::new(),
            ddl: Vec::new(),
        };
        assert(delta@ =~= DeltaView::none());
        delta
    }

    fn take(&mut self, record: WalPayload) -> (fits: bool)
        requires
            old(self).wf(),
        ensures
            final(self).wf(),
            match old(self)@.with(record@) {
                Some(after) => fits && final(self)@ == after,
                None => !fits,
            },
    {
        let ghost before = self@;
        let ghost shown = record@;
        match record {
            WalPayload::NodeInsert { table, row } => {
                push_row(&mut self.nodes, table, row);
            },
            WalPayload::RelInsert { rel, from, to, values } => {
                push_edge(&mut self.edges, rel, OverlayEdge { from, to, values });
            },
            WalPayload::NodeUpdate { table, row } => {
                push_row(&mut self.node_updates, table, row);
            },
            WalPayload::RelDelete { rel, endpoint, offset } => {
                push_gone(&mut self.rel_tombstones, rel, endpoint, offset);
            },
            WalPayload::NodeDelete { table, key } => {
                push_value(&mut self.node_deletes, table, key);
            },
            WalPayload::Ddl(change) => {
                let ghost listed = ddl_of(self.ddl@);
                let ghost added = change@;
                self.ddl.push(DdlOp::from_payload(change));
                assert(ddl_of(self.ddl@) =~= listed.push(added));
            },
            WalPayload::Commit { .. } => {
                return false;
            },
        }
        assert(self@ =~= before.with(shown)->Some_0);
        true
    }

    /// What records of the log change together. None of them may be a
    /// commit.
    pub fn from_wal_payloads(records: Vec<WalPayload>) -> (result: DevonResult<CommitDelta>)
        ensures
            match (result, changes_of(txn_log::payloads(records@), records@.len())) {
                (Ok(delta), Some(changes)) => delta.wf() && delta@ == changes,
                (Err(error), None) => error.kind_of() == ErrorKind::Corrupt,
                _ => false,
            },
    {
        let ghost all = txn_log::payloads(records@);
        let mut delta = CommitDelta::new();
        let mut i: usize = 0;
        while i < records.len()
            invariant
                i <= records@.len(),
                all == txn_log::payloads(records@),
                delta.wf(),
                changes_of(all, i as nat) == Some(delta@),
            decreases records@.len() - i,
        {
            let fits: bool = delta.take(records[i].duplicate());
            assert(all[i as int] == records@[i as int]@);
            if !fits {
                proof {
                    lemma_changes_fail(all, (i + 1) as nat, all.len());
                }
                return Err(corrupt("commit delta contains a WAL commit payload"));
            }
            i += 1;
        }
        Ok(delta)
    }

    /// What a transaction read back from the log changes. Each of its
    /// records carries the position of its commit.
    pub fn from_committed_group(group: CommittedGroup) -> (result: DevonResult<CommitDelta>)
        ensures
            match (
                result,
                stamps_agree(group@),
                changes_of(records_of(group@), group@.records.len()),
            ) {
                (Ok(delta), true, Some(changes)) => delta.wf() && delta@ == changes,
                (Err(error), false, _) => error.kind_of() == ErrorKind::Corrupt,
                (Err(error), true, None) => error.kind_of() == ErrorKind::Corrupt,
                _ => false,
            },
    {
        let ghost shown = group@;
        let mut records: Vec<WalPayload> = Vec::new();
        let mut i: usize = 0;
        while i < group.records.len()
            invariant
                i <= group.records@.len(),
                shown == group@,
                records@.len() == i,
                forall|k: int|
                    0 <= k < i ==> (#[trigger] records@[k])@ == shown.records[k].1
                        && shown.records[k].0 == shown.commit_lsn,
            decreases group.records@.len() - i,
        {
            assert(shown.records[i as int] == (
                group.records@[i as int].begin_lsn,
                group.records@[i as int].payload@,
            ));
            if group.records[i].begin_lsn != group.commit_lsn {
                let head: String = with_number(
                    "WAL group committed at LSN ",
                    group.commit_lsn,
                    " contains record stamped with begin LSN ",
                );
                return Err(
                    corrupt(
                        with_number(head.as_str(), group.records[i].begin_lsn, "").as_str(),
                    ),
                );
            }
            records.push(group.records[i].payload.duplicate());
            i += 1;
        }
        proof {
            assert(txn_log::payloads(records@) =~= records_of(shown));
            assert forall|k: int| 0 <= k < shown.records.len() implies (
            #[trigger] shown.records[k]).0 == shown.commit_lsn by {
                assert(records@[k]@ == shown.records[k].1);
            }
        }
        CommitDelta::from_wal_payloads(records)
    }

    /// The bytes that this takes in memory, by estimate.
    pub fn estimated_bytes(&self) -> (result: DevonResult<usize>)
        requires
            self.wf(),
        ensures
            match result {
                Ok(bytes) => bytes == self.bytes(),
                Err(error) => self.bytes() > usize::MAX && error.kind_of()
                    == ErrorKind::BudgetExceeded,
            },
    {
        let total: Tally = Tally::of(COMMIT_DELTA_OVERHEAD_BYTES as u64).plus(
            &map_tally(&self.nodes),
        ).plus(&map_tally(&self.node_updates)).plus(&map_tally(&self.node_deletes)).plus(
            &map_tally(&self.edges),
        ).plus(&map_tally(&self.rel_tombstones)).plus(&changes_tally(&self.ddl));
        estimated(&total)
    }
}

} // verus!
