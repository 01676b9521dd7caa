//! Relationship tables: buffered edges over stored adjacency groups.

pub mod blocked;
pub mod checkpoint;
pub mod edges;
pub mod layout;
pub mod merge;
pub mod remap;
pub mod rewrite;
pub mod scan;

use vstd::prelude::*;

use crate::catalog;
use crate::catalog::{duplicate_ids, Catalog, CatalogView};
use crate::error::{corrupt, invalid_argument, not_found, DevonResult, ErrorKind};
use crate::groups;
use crate::groups::{duplicate_edges, CsrEdge, EdgeView, GroupStore, GroupView};
use crate::keys::value_kind;
use crate::overlay::{RelEndpointTombstones, TombstonesView};
use crate::picked;
use crate::schema;
use crate::schema::{first_misfit, RelSchemaView, RelTableSchema};
use crate::text;
use crate::text::{and_name, same_name, with_name, with_number};
use crate::types;
use crate::types::{duplicate_values, LogicalType, Value};

pub use crate::rel_table::blocked::DetachCheckpointBlocked;
pub use crate::rel_table::edges::{Direction, ScannedRelationship};
pub use crate::rel_table::remap::OffsetRemap;
pub use crate::rel_table::scan::RelScanCursor;

use crate::rel_table::edges::{
    append_incident, drop_loops, keep_visible, row_is_gone, RelationshipView, SideView,
};
use crate::rel_table::layout::{endpoint_layout, EndpointLayout};

verus! {

/// A relationship table: its schema, the edges that are not stored yet, and
/// the endpoints whose edges reads leave out.
#[derive(Debug)]
pub struct RelTable {
    schema: RelTableSchema,
    buffered_edges: Vec<ScannedRelationship>,
    endpoint_tombstones: RelEndpointTombstones,
}

/// What a relationship table holds in memory.
#[verifier::ext_equal]
pub struct TableView {
    pub schema: RelSchemaView,
    pub edges: Seq<RelationshipView>,
    pub gone: TombstonesView,
}

impl View for RelTable {
    type V = TableView;

    closed spec fn view(&self) -> TableView {
        TableView {
            schema: self.schema@,
            edges: edges::relationships(self.buffered_edges@),
            gone: self.endpoint_tombstones@,
        }
    }
}

/// A relationship insert as the log records it.
#[derive(Debug)]
pub struct EdgeRecord {
    pub rel: String,
    pub from: u64,
    pub to: u64,
    pub values: Vec<Value>,
}

impl EdgeRecord {
    /// The relationship that the record inserts.
    pub open spec fn edge(self) -> RelationshipView {
        RelationshipView { from: self.from, to: self.to, values: types::views(self.values@) }
    }
}

/// Whether buffered edges have the property columns of a schema.
pub open spec fn edges_fit(schema: RelSchemaView, edges: Seq<RelationshipView>) -> bool {
    forall|i: int|
        0 <= i < edges.len() ==> schema::row_fits(schema.columns, (#[trigger] edges[i]).values)
}

/// The kind of error that a catalog gives which does not hold the table with
/// this schema.
pub open spec fn schema_fault(catalog: CatalogView, schema: RelSchemaView) -> Option<ErrorKind> {
    match catalog::rel_of(catalog, schema.name) {
        None => Some(ErrorKind::NotFound),
        Some(entry) => if entry.schema == schema {
            None
        } else {
            Some(ErrorKind::InvalidArgument)
        },
    }
}

/// Whether both ends of a relationship are of one node table.
pub open spec fn one_table(schema: RelSchemaView) -> bool {
    text::folded(schema.from) == text::folded(schema.to)
}

/// The two stored sides of a table.
#[verifier::ext_equal]
pub struct SidesView {
    pub out: SideView,
    pub into: SideView,
}

/// The two stored sides of a table, or the kind of error that opening them
/// gives.
pub open spec fn sides_of(
    store: Map<u64, GroupView>,
    catalog: CatalogView,
    schema: RelSchemaView,
) -> Result<SidesView, ErrorKind> {
    match layout::layout_of(store, catalog, schema.from) {
        Err(kind) => Err(kind),
        Ok(from_counts) => match layout::layout_of(store, catalog, schema.to) {
            Err(kind) => Err(kind),
            Ok(to_counts) => {
                let ids = catalog::ids_of(catalog, schema.name);
                if ids.fwd.len() > from_counts.len() || ids.bwd.len() > to_counts.len() {
                    Err(ErrorKind::Corrupt)
                } else {
                    Ok(sides_with(schema, ids, from_counts, to_counts))
                }
            },
        },
    }
}

/// The two stored sides of a table with the given page ids and row counts.
pub open spec fn sides_with(
    schema: RelSchemaView,
    ids: catalog::RelStorageView,
    from_counts: Seq<nat>,
    to_counts: Seq<nat>,
) -> SidesView {
    SidesView {
        out: SideView {
            ids: ids.fwd,
            counts: from_counts,
            types: schema::types_of(schema.columns),
            neighbor_rows: layout::total_rows(to_counts),
        },
        into: SideView {
            ids: ids.bwd,
            counts: to_counts,
            types: schema::types_of(schema.columns),
            neighbor_rows: layout::total_rows(from_counts),
        },
    }
}

/// Whether both directions are asked for of a table whose relationships lead from one node table to
/// another, so that a row number would mean two things.
pub open spec fn refuses_both(
    catalog: CatalogView,
    schema: RelSchemaView,
    direction: Direction,
) -> bool {
    schema_fault(catalog, schema) is None && direction == Direction::Both && !one_table(schema)
}

/// What is said where both directions are refused.
pub open spec fn both_text(schema: RelSchemaView) -> Seq<char> {
    "relationship table `"@ + schema.name
        + "` cannot use Both direction across node tables `"@ + schema.from + "` and `"@ + schema.to
        + "`"@
}

/// The kind of error that opening a table for a direction gives.
pub open spec fn opening(
    store: Map<u64, GroupView>,
    catalog: CatalogView,
    schema: RelSchemaView,
    direction: Direction,
) -> Result<SidesView, ErrorKind> {
    match schema_fault(catalog, schema) {
        Some(kind) => Err(kind),
        None => if direction == Direction::Both && !one_table(schema) {
            Err(ErrorKind::InvalidArgument)
        } else {
            sides_of(store, catalog, schema)
        },
    }
}

/// The visible edges of a row: the outgoing and the incoming ones. Where
/// both are asked for, an edge from the row to itself is outgoing only.
pub open spec fn adjacency(
    store: Map<u64, GroupView>,
    catalog: CatalogView,
    table: TableView,
    direction: Direction,
    row: u64,
) -> Result<(Seq<EdgeView>, Seq<EdgeView>), ErrorKind> {
    match opening(store, catalog, table.schema, direction) {
        Err(kind) => Err(kind),
        Ok(sides) => {
            let out = edges::seen(
                store,
                sides.out,
                table.edges,
                table.gone,
                Direction::Out,
                row,
            );
            let into = edges::seen(
                store,
                sides.into,
                table.edges,
                table.gone,
                Direction::In,
                row,
            );
            paired(direction, out, into, row)
        },
    }
}

/// The outgoing and the incoming edges that a direction asks for.
pub open spec fn paired(
    direction: Direction,
    out: Result<Seq<EdgeView>, ErrorKind>,
    into: Result<Seq<EdgeView>, ErrorKind>,
    row: u64,
) -> Result<(Seq<EdgeView>, Seq<EdgeView>), ErrorKind> {
    match direction {
        Direction::Out => match out {
            Ok(edges) => Ok((edges, Seq::empty())),
            Err(kind) => Err(kind),
        },
        Direction::In => match into {
            Ok(edges) => Ok((Seq::empty(), edges)),
            Err(kind) => Err(kind),
        },
        Direction::Both => match (out, into) {
            (Ok(out), Ok(into)) => Ok((out, edges::without_loops(into, row))),
            (Ok(_), Err(kind)) => Err(kind),
            (Err(kind), _) => Err(kind),
        },
    }
}

/// Both ways, a row has the edges that it has out, and behind them those that it has in but for
/// loops, which are there already: each other edge in is listed, in order and as often as it is
/// there in. What is refused one way is refused both ways, the way out first.
pub proof fn law_both_ways_are_out_and_in(
    store: Map<u64, GroupView>,
    catalog: CatalogView,
    table: TableView,
    row: u64,
)
    requires
        one_table(table.schema),
    ensures
        ({
            let out = adjacency(store, catalog, table, Direction::Out, row);
            let into = adjacency(store, catalog, table, Direction::In, row);
            let both = adjacency(store, catalog, table, Direction::Both, row);
            &&& both is Ok <==> out is Ok && into is Ok
            &&& out is Err ==> both == out
            &&& out is Ok && into is Err ==> both == into
            &&& both is Ok ==> {
                &&& out->Ok_0.1.len() == 0
                &&& into->Ok_0.0.len() == 0
                &&& both->Ok_0.0 == out->Ok_0.0
                &&& picked::keeps(
                    both->Ok_0.1,
                    into->Ok_0.1,
                    |edge: EdgeView| edge.neighbor != row,
                )
                &&& forall|edge: EdgeView|
                    edge.neighbor != row ==> #[trigger] both->Ok_0.1.to_multiset().count(edge)
                        == into->Ok_0.1.to_multiset().count(edge)
            }
        }),
{
    let into = adjacency(store, catalog, table, Direction::In, row);
    if into is Ok {
        edges::law_only_loops_are_left_out(into->Ok_0.1, row);
    }
}

/// An edge that was inserted and has no gone end is listed out of its source and into its
/// destination, behind all that was there before; no other row's edges change.
pub proof fn law_inserted_edge_is_listed(
    store: Map<u64, GroupView>,
    catalog: CatalogView,
    table: TableView,
    edge: RelationshipView,
    row: u64,
)
    requires
        adjacency(store, catalog, table, Direction::Out, row) is Ok,
        adjacency(store, catalog, table, Direction::In, row) is Ok,
    ensures
        ({
            let after = TableView { edges: table.edges.push(edge), ..table };
            let seen = !table.gone.from.contains(edge.from) && !table.gone.to.contains(edge.to);
            let out = adjacency(store, catalog, table, Direction::Out, row)->Ok_0.0;
            let into = adjacency(store, catalog, table, Direction::In, row)->Ok_0.1;
            &&& adjacency(store, catalog, after, Direction::Out, row) == Ok::<
                (Seq<EdgeView>, Seq<EdgeView>),
                ErrorKind,
            >(
                (
                    if seen && edge.from == row {
                        out.push(EdgeView { neighbor: edge.to, values: edge.values })
                    } else {
                        out
                    },
                    Seq::empty(),
                ),
            )
            &&& adjacency(store, catalog, after, Direction::In, row) == Ok::<
                (Seq<EdgeView>, Seq<EdgeView>),
                ErrorKind,
            >(
                (
                    Seq::empty(),
                    if seen && edge.to == row {
                        into.push(EdgeView { neighbor: edge.from, values: edge.values })
                    } else {
                        into
                    },
                ),
            )
        }),
{
    let more = table.edges.push(edge);
    assert(more.drop_last() =~= table.edges);
    let sides = opening(store, catalog, table.schema, Direction::Out)->Ok_0;
    let away = edges::stored(store, sides.out, row);
    let back = edges::stored(store, sides.into, row);
    if !edges::is_gone(table.gone, Direction::Out, row) && edge.from == row {
        let added = EdgeView { neighbor: edge.to, values: edge.values };
        let before = away->Ok_0 + edges::incident(table.edges, Direction::Out, row);
        let now = away->Ok_0 + edges::incident(more, Direction::Out, row);
        assert(now =~= before.push(added));
        assert(now.drop_last() =~= before);
    }
    if !edges::is_gone(table.gone, Direction::In, row) && edge.to == row {
        let added = EdgeView { neighbor: edge.from, values: edge.values };
        let before = back->Ok_0 + edges::incident(table.edges, Direction::In, row);
        let now = back->Ok_0 + edges::incident(more, Direction::In, row);
        assert(now =~= before.push(added));
        assert(now.drop_last() =~= before);
    }
}

/// The edges of a row that reading its adjacency brings into memory.
pub open spec fn unfiltered(
    store: Map<u64, GroupView>,
    catalog: CatalogView,
    table: TableView,
    direction: Direction,
    row: u64,
) -> Result<Seq<EdgeView>, ErrorKind> {
    match opening(store, catalog, table.schema, direction) {
        Err(kind) => Err(kind),
        Ok(sides) => {
            let out = edges::resident(store, sides.out, table.edges, Direction::Out, row);
            let into = edges::resident(store, sides.into, table.edges, Direction::In, row);
            match direction {
                Direction::Out => out,
                Direction::In => into,
                Direction::Both => match (out, into) {
                    (Ok(out), Ok(into)) => Ok(out + into),
                    (Ok(_), Err(kind)) => Err(kind),
                    (Err(kind), _) => Err(kind),
                },
            }
        },
    }
}

/// The neighbours of edges.
pub open spec fn neighbors_of(edges: Seq<EdgeView>) -> Seq<u64> {
    edges.map_values(|edge: EdgeView| edge.neighbor)
}

/// The relationships that a row's edges are.
pub open spec fn relationships_of(
    edges: Seq<EdgeView>,
    direction: Direction,
    row: u64,
) -> Seq<RelationshipView> {
    edges.map_values(
        |edge: EdgeView|
            if direction == Direction::Out {
                RelationshipView { from: row, to: edge.neighbor, values: edge.values }
            } else {
                RelationshipView { from: edge.neighbor, to: row, values: edge.values }
            },
    )
}

/// One stored side of a table.
#[derive(Debug)]
pub(crate) struct Side {
    ids: Vec<u64>,
    layout: EndpointLayout,
    types: Vec<LogicalType>,
    neighbor_rows: u64,
}

impl View for Side {
    type V = SideView;

    closed spec fn view(&self) -> SideView {
        SideView {
            ids: self.ids@,
            counts: self.layout@,
            types: self.types@,
            neighbor_rows: self.neighbor_rows as nat,
        }
    }
}

impl Side {
    pub(crate) closed spec fn wf(self) -> bool {
        self.layout.wf()
    }
}

/// The page id of a group that has one.
pub(crate) fn stored_group_id(ids: &Vec<u64>, index: usize) -> (id: Option<u64>)
    ensures
        id == edges::id_at(ids@, index as int),
{
    if index < ids.len() && ids[index] != 0 {
        Some(ids[index])
    } else {
        None
    }
}

pub(crate) fn more_rows_than_its_group(rows: usize, most: usize, group_index: usize) -> (error:
    crate::error::DevonError)
    ensures
        error.kind_of() == ErrorKind::Corrupt,
{
    let head: String = with_number("CSR group ", group_index as u64, " row_count ");
    let middle: String = with_number(
        head.as_str(),
        rows as u64,
        " exceeds endpoint node-group row_count ",
    );
    corrupt(with_number(middle.as_str(), most as u64, "").as_str())
}

/// The stored edges of a row.
fn stored_edges(store: &GroupStore, side: &Side, row: u64) -> (result: DevonResult<Vec<CsrEdge>>)
    requires
        store.wf(),
        side.wf(),
    ensures
        match result {
            Ok(list) => edges::stored(store@, side@, row) == Ok::<Seq<EdgeView>, ErrorKind>(
                groups::edges_of(list@),
            ),
            Err(error) => edges::stored(store@, side@, row) == Err::<Seq<EdgeView>, ErrorKind>(
                error.kind_of(),
            ),
        },
{
    let none: Vec<CsrEdge> = Vec::new();
    assert(groups::edges_of(none@) =~= Seq::<EdgeView>::empty());
    match side.layout.locate(row) {
        None => Ok(none),
        Some((group_index, slot)) => {
            match stored_group_id(&side.ids, group_index) {
                None => Ok(none),
                Some(id) => {
                    match store.read_checked(id, &side.types, side.neighbor_rows) {
                        Err(error) => Err(error),
                        Ok(group) => {
                            let most: usize = side.layout.rows_in(group_index);
                            let rows: usize = group.row_count();
                            if rows > most {
                                return Err(more_rows_than_its_group(rows, most, group_index));
                            }
                            if slot < rows {
                                assert(group@.slots[slot as int] == groups::edges_of(
                                    group.slots@[slot as int]@,
                                ));
                                Ok(duplicate_edges(&group.slots[slot]))
                            } else {
                                Ok(none)
                            }
                        },
                    }
                },
            }
        },
    }
}

/// Opens the two stored sides of a table.
pub(crate) fn open_sides(store: &GroupStore, catalog: &Catalog, schema: &RelTableSchema) -> (result:
    DevonResult<(Side, Side)>)
    requires
        store.wf(),
    ensures
        match result {
            Ok((out, into)) => out.wf() && into.wf() && sides_of(store@, catalog@, schema@) == Ok::<
                SidesView,
                ErrorKind,
            >((SidesView { out: out@, into: into@ })),
            Err(error) => sides_of(store@, catalog@, schema@) == Err::<SidesView, ErrorKind>(
                error.kind_of(),
            ),
        },
{
    let from_layout: EndpointLayout = match endpoint_layout(store, catalog, schema.from.as_str()) {
        Ok(layout) => layout,
        Err(error) => {
            return Err(error);
        },
    };
    let to_layout: EndpointLayout = match endpoint_layout(store, catalog, schema.to.as_str()) {
        Ok(layout) => layout,
        Err(error) => {
            return Err(error);
        },
    };
    sides_from(catalog, schema, from_layout, to_layout)
}

/// The two stored sides of a table whose endpoints have these layouts.
pub(crate) fn sides_from(
    catalog: &Catalog,
    schema: &RelTableSchema,
    from_layout: EndpointLayout,
    to_layout: EndpointLayout,
) -> (result: DevonResult<(Side, Side)>)
    requires
        from_layout.wf(),
        to_layout.wf(),
    ensures
        ({
            let ids = catalog::ids_of(catalog@, schema@.name);
            let fits = ids.fwd.len() <= from_layout@.len() && ids.bwd.len() <= to_layout@.len();
            match result {
                Ok((out, into)) => fits && out.wf() && into.wf() && sides_with(
                    schema@,
                    ids,
                    from_layout@,
                    to_layout@,
                ) == (SidesView { out: out@, into: into@ }),
                Err(error) => !fits && error.kind_of() == ErrorKind::Corrupt,
            }
        }),
{
    let (fwd, bwd): (Vec<u64>, Vec<u64>) = match catalog.rel_storage(schema.name.as_str()) {
        Some(storage) => (duplicate_ids(&storage.fwd), duplicate_ids(&storage.bwd)),
        None => (Vec::new(), Vec::new()),
    };
    if fwd.len() > from_layout.group_count() {
        return Err(
            corrupt("relationship forward storage has more groups than its source table"),
        );
    }
    if bwd.len() > to_layout.group_count() {
        return Err(
            corrupt("relationship backward storage has more groups than its destination table"),
        );
    }
    let from_rows: u64 = from_layout.total();
    let to_rows: u64 = to_layout.total();
    let out = Side { ids: fwd, layout: from_layout, types: schema.types(), neighbor_rows: to_rows };
    let into = Side { ids: bwd, layout: to_layout, types: schema.types(), neighbor_rows: from_rows };
    assert((SidesView { out: out@, into: into@ }) =~= sides_with(
        schema@,
        catalog::ids_of(catalog@, schema@.name),
        from_layout@,
        to_layout@,
    ));
    Ok((out, into))
}

/// Whether the catalog holds the table with this schema.
pub(crate) fn ensure_catalog_schema(schema: &RelTableSchema, catalog: &Catalog) -> (result:
    DevonResult<()>)
    ensures
        match result {
            Ok(()) => schema_fault(catalog@, schema@) is None,
            Err(error) => schema_fault(catalog@, schema@) == Some(error.kind_of()),
        },
{
    match catalog.rel_table(schema.name.as_str()) {
        None => Err(
            not_found(with_name("relationship table `", schema.name.as_str(), "`").as_str()),
        ),
        Some(found) => {
            if found.same(schema) {
                Ok(())
            } else {
                Err(
                    invalid_argument(
                        with_name(
                            "relationship table `",
                            schema.name.as_str(),
                            "` schema differs from the catalog",
                        ).as_str(),
                    ),
                )
            }
        },
    }
}

fn neighbor_list(edges: &Vec<CsrEdge>) -> (list: Vec<u64>)
    ensures
        list@ == neighbors_of(groups::edges_of(edges@)),
{
    let mut list: Vec<u64> = Vec::new();
    let mut i: usize = 0;
    while i < edges.len()
        invariant
            i <= edges@.len(),
            list@.len() == i,
            forall|j: int| 0 <= j < i ==> #[trigger] list@[j] == edges@[j].neighbor,
        decreases edges@.len() - i,
    {
        list.push(edges[i].neighbor);
        i += 1;
    }
    assert(list@ =~= neighbors_of(groups::edges_of(edges@)));
    list
}

fn append_relationships(
    list: &mut Vec<ScannedRelationship>,
    edges: Vec<CsrEdge>,
    direction: Direction,
    row: u64,
)
    ensures
        edges::relationships(final(list)@) == edges::relationships(old(list)@) + relationships_of(
            groups::edges_of(edges@),
            direction,
            row,
        ),
{
    let ghost before = edges::relationships(list@);
    let ghost wanted = relationships_of(groups::edges_of(edges@), direction, row);
    let mut i: usize = 0;
    assert(before + wanted.subrange(0, 0) =~= before);
    while i < edges.len()
        invariant
            i <= edges@.len(),
            wanted == relationships_of(groups::edges_of(edges@), direction, row),
            edges::relationships(list@) == before + wanted.subrange(0, i as int),
        decreases edges@.len() - i,
    {
        let values: Vec<Value> = duplicate_values(edges[i].values.as_slice());
        let neighbor: u64 = edges[i].neighbor;
        let ghost shown = edges::relationships(list@);
        let next = if direction == Direction::Out {
            ScannedRelationship { from: row, to: neighbor, values }
        } else {
            ScannedRelationship { from: neighbor, to: row, values }
        };
        assert(next@ =~= wanted[i as int]);
        list.push(next);
        assert(edges::relationships(list@) =~= shown.push(wanted[i as int]));
        assert(before + wanted.subrange(0, i + 1) =~= shown.push(wanted[i as int]));
        i += 1;
    }
    assert(wanted.subrange(0, wanted.len() as int) =~= wanted);
}

/// Appends `more` to `list`.
fn append_all(list: &mut Vec<u64>, more: Vec<u64>)
    ensures
        final(list)@ == old(list)@ + more@,
{
    let ghost before = list@;
    let mut i: usize = 0;
    assert(before + more@.subrange(0, 0) =~= before);
    while i < more.len()
        invariant
            i <= more@.len(),
            list@ == before + more@.subrange(0, i as int),
        decreases more@.len() - i,
    {
        list.push(more[i]);
        assert(list@ =~= before + more@.subrange(0, i + 1));
        i += 1;
    }
    assert(more@.subrange(0, more@.len() as int) =~= more@);
}

impl RelTable {
    /// The buffered edges have the property columns of the schema.
    pub closed spec fn wf(self) -> bool {
        edges_fit(self.schema@, self@.edges)
    }

    /// What a lawful table guarantees.
    pub proof fn lemma_wf(self)
        requires
            self.wf(),
        ensures
            edges_fit(self@.schema, self@.edges),
    {
    }

    /// A table without buffered edges.
    pub fn new(schema: RelTableSchema) -> (table: RelTable)
        ensures
            table.wf(),
            table@ == (TableView {
                schema: schema@,
                edges: Seq::empty(),
                gone: TombstonesView::none(),
            }),
    {
        let ghost shown = schema@;
        let table = RelTable {
            schema,
            buffered_edges: Vec::new(),
            endpoint_tombstones: RelEndpointTombstones::new(),
        };
        assert(table@ =~= TableView {
            schema: shown,
            edges: Seq::empty(),
            gone: TombstonesView::none(),
        });
        table
    }

    /// The table's schema.
    pub fn schema(&self) -> (schema: &RelTableSchema)
        ensures
            schema@ == self@.schema,
    {
        &self.schema
    }

    /// Replaces the endpoints whose edges reads leave out.
    pub fn set_endpoint_tombstones(&mut self, tombstones: RelEndpointTombstones)
        requires
            old(self).wf(),
        ensures
            final(self).wf(),
            final(self)@ == (TableView { gone: tombstones@, ..old(self)@ }),
    {
        self.endpoint_tombstones = tombstones;
    }

    /// Whether edges wait for a checkpoint.
    pub fn has_buffered_edges(&self) -> (yes: bool)
        ensures
            yes == (self@.edges.len() > 0),
    {
        self.buffered_edges.len() > 0
    }

    pub(crate) fn buffered_count(&self) -> (count: usize)
        ensures
            count == self@.edges.len(),
    {
        self.buffered_edges.len()
    }

    pub(crate) fn buffered_edge(&self, at: usize) -> (edge: ScannedRelationship)
        requires
            at < self@.edges.len(),
        ensures
            edge@ == self@.edges[at as int],
    {
        self.buffered_edges[at].duplicate()
    }

    pub(crate) fn tombstones(&self) -> (gone: &RelEndpointTombstones)
        ensures
            gone@ == self@.gone,
    {
        &self.endpoint_tombstones
    }

    fn validate_values(&self, values: &Vec<Value>) -> (result: DevonResult<()>)
        ensures
            match result {
                Ok(()) => schema::row_fits(self@.schema.columns, types::views(values@)),
                Err(error) => !schema::row_fits(self@.schema.columns, types::views(values@))
                    && error.kind_of() == ErrorKind::InvalidArgument,
            },
    {
        if values.len() != self.schema.columns.len() {
            let head: String = with_name(
                "relationship table `",
                self.schema.name.as_str(),
                "` expects ",
            );
            let middle: String = with_number(
                head.as_str(),
                self.schema.columns.len() as u64,
                " property columns but edge has ",
            );
            return Err(
                invalid_argument(
                    with_number(middle.as_str(), values.len() as u64, " values").as_str(),
                ),
            );
        }
        match first_misfit(&self.schema.columns, values) {
            None => Ok(()),
            Some(at) => {
                let head: String = with_name(
                    "column `",
                    self.schema.columns[at].name.as_str(),
                    "` in relationship table `",
                );
                let middle: String = and_name(head, self.schema.name.as_str(), "` expects ");
                let more: String = and_name(
                    middle,
                    self.schema.columns[at].ty.name(),
                    " but received ",
                );
                Err(invalid_argument(and_name(more, value_kind(&values[at]), "").as_str()))
            },
        }
    }

    /// Buffers an edge, and appends its record to the log, whose owner makes
    /// it durable before the insert is acknowledged.
    pub fn insert(
        &mut self,
        log: &mut Vec<EdgeRecord>,
        from_offset: u64,
        to_offset: u64,
        values: Vec<Value>,
    ) -> (result: DevonResult<()>)
        requires
            old(self).wf(),
        ensures
            final(self).wf(),
            ({
                let edge = RelationshipView {
                    from: from_offset,
                    to: to_offset,
                    values: types::views(values@),
                };
                match result {
                    Ok(()) => {
                        &&& schema::row_fits(old(self)@.schema.columns, types::views(values@))
                        &&& final(self)@ == (TableView {
                            edges: old(self)@.edges.push(edge),
                            ..old(self)@
                        })
                        &&& final(log)@.len() == old(log)@.len() + 1
                        &&& final(log)@.drop_last() == old(log)@
                        &&& final(log)@.last().rel@ == old(self)@.schema.name
                        &&& final(log)@.last().edge() == edge
                    },
                    Err(error) => {
                        &&& !schema::row_fits(old(self)@.schema.columns, types::views(values@))
                        &&& error.kind_of() == ErrorKind::InvalidArgument
                        &&& final(self)@ == old(self)@
                        &&& final(log)@ == old(log)@
                    },
                }
            }),
    {
        let ghost logged = log@;
        let record = EdgeRecord {
            rel: self.schema.name.clone(),
            from: from_offset,
            to: to_offset,
            values: duplicate_values(values.as_slice()),
        };
        match self.recover_edge(from_offset, to_offset, values) {
            Ok(()) => {
                log.push(record);
                assert(log@.drop_last() =~= logged);
                Ok(())
            },
            Err(error) => Err(error),
        }
    }

    /// Buffers an edge that the log already holds.
    pub fn recover_edge(&mut self, from_offset: u64, to_offset: u64, values: Vec<Value>) -> (result:
        DevonResult<()>)
        requires
            old(self).wf(),
        ensures
            final(self).wf(),
            match result {
                Ok(()) => {
                    &&& schema::row_fits(old(self)@.schema.columns, types::views(values@))
                    &&& final(self)@ == (TableView {
                        edges: old(self)@.edges.push(
                            (RelationshipView {
                                from: from_offset,
                                to: to_offset,
                                values: types::views(values@),
                            }),
                        ),
                        ..old(self)@
                    })
                },
                Err(error) => {
                    &&& !schema::row_fits(old(self)@.schema.columns, types::views(values@))
                    &&& error.kind_of() == ErrorKind::InvalidArgument
                    &&& final(self)@ == old(self)@
                },
            },
    {
        match self.validate_values(&values) {
            Ok(()) => {},
            Err(error) => {
                return Err(error);
            },
        }
        let ghost before = self@;
        let ghost added = RelationshipView {
            from: from_offset,
            to: to_offset,
            values: types::views(values@),
        };
        self.buffered_edges.push(ScannedRelationship { from: from_offset, to: to_offset, values });
        assert(self@.edges =~= before.edges.push(added));
        Ok(())
    }

    fn open(&self, store: &GroupStore, catalog: &Catalog, direction: Direction) -> (result:
        DevonResult<(Side, Side)>)
        requires
            store.wf(),
        ensures
            match result {
                Ok((out, into)) => out.wf() && into.wf() && opening(
                    store@,
                    catalog@,
                    self@.schema,
                    direction,
                ) == Ok::<SidesView, ErrorKind>((SidesView { out: out@, into: into@ })),
                Err(error) => opening(store@, catalog@, self@.schema, direction) == Err::<
                    SidesView,
                    ErrorKind,
                >(error.kind_of()) && (refuses_both(catalog@, self@.schema, direction)
                    ==> error.text_of() == both_text(self@.schema)),
            },
    {
        match ensure_catalog_schema(&self.schema, catalog) {
            Ok(()) => {},
            Err(error) => {
                return Err(error);
            },
        }
        if direction == Direction::Both && !same_name(
            self.schema.from.as_str(),
            self.schema.to.as_str(),
        ) {
            let head: String = with_name(
                "relationship table `",
                self.schema.name.as_str(),
                "` cannot use Both direction across node tables `",
            );
            let middle: String = with_name(head.as_str(), self.schema.from.as_str(), "` and `");
            let text: String = with_name(middle.as_str(), self.schema.to.as_str(), "`");
            assert(text@ =~= both_text(self@.schema));
            return Err(invalid_argument(text.as_str()));
        }
        open_sides(store, catalog, &self.schema)
    }

    fn resident_edges(&self, store: &GroupStore, side: &Side, direction: Direction, row: u64) -> (
    result: DevonResult<Vec<CsrEdge>>)
        requires
            store.wf(),
            side.wf(),
        ensures
            match result {
                Ok(list) => edges::resident(store@, side@, self@.edges, direction, row) == Ok::<
                    Seq<EdgeView>,
                    ErrorKind,
                >(groups::edges_of(list@)),
                Err(error) => edges::resident(store@, side@, self@.edges, direction, row) == Err::<
                    Seq<EdgeView>,
                    ErrorKind,
                >(error.kind_of()),
            },
    {
        match stored_edges(store, side, row) {
            Err(error) => Err(error),
            Ok(list) => {
                let mut list: Vec<CsrEdge> = list;
                append_incident(&mut list, &self.buffered_edges, direction, row);
                Ok(list)
            },
        }
    }

    fn seen_edges(&self, store: &GroupStore, side: &Side, direction: Direction, row: u64) -> (result:
        DevonResult<Vec<CsrEdge>>)
        requires
            store.wf(),
            side.wf(),
        ensures
            match result {
                Ok(list) => edges::seen(store@, side@, self@.edges, self@.gone, direction, row)
                    == Ok::<Seq<EdgeView>, ErrorKind>(groups::edges_of(list@)),
                Err(error) => edges::seen(store@, side@, self@.edges, self@.gone, direction, row)
                    == Err::<Seq<EdgeView>, ErrorKind>(error.kind_of()),
            },
    {
        if row_is_gone(&self.endpoint_tombstones, direction, row) {
            let none: Vec<CsrEdge> = Vec::new();
            assert(groups::edges_of(none@) =~= Seq::<EdgeView>::empty());
            return Ok(none);
        }
        match self.resident_edges(store, side, direction, row) {
            Err(error) => Err(error),
            Ok(list) => Ok(keep_visible(list, &self.endpoint_tombstones, direction, row)),
        }
    }

    fn adjacent(&self, store: &GroupStore, catalog: &Catalog, direction: Direction, row: u64) -> (
    result: DevonResult<(Vec<CsrEdge>, Vec<CsrEdge>)>)
        requires
            store.wf(),
        ensures
            match result {
                Ok((out, into)) => adjacency(store@, catalog@, self@, direction, row) == Ok::<
                    (Seq<EdgeView>, Seq<EdgeView>),
                    ErrorKind,
                >((groups::edges_of(out@), groups::edges_of(into@))),
                Err(error) => adjacency(store@, catalog@, self@, direction, row) == Err::<
                    (Seq<EdgeView>, Seq<EdgeView>),
                    ErrorKind,
                >(error.kind_of()) && (refuses_both(catalog@, self@.schema, direction) ==> error.text_of() == both_text(
                    self@.schema,
                )),
            },
    {
        let (out_side, into_side): (Side, Side) = match self.open(store, catalog, direction) {
            Ok(sides) => sides,
            Err(error) => {
                return Err(error);
            },
        };
        let mut out: Vec<CsrEdge> = Vec::new();
        let mut into: Vec<CsrEdge> = Vec::new();
        assert(groups::edges_of(out@) =~= Seq::<EdgeView>::empty());
        assert(groups::edges_of(into@) =~= Seq::<EdgeView>::empty());
        if direction != Direction::In {
            out =
            match self.seen_edges(store, &out_side, Direction::Out, row) {
                Ok(list) => list,
                Err(error) => {
                    return Err(error);
                },
            };
        }
        if direction != Direction::Out {
            into =
            match self.seen_edges(store, &into_side, Direction::In, row) {
                Ok(list) => list,
                Err(error) => {
                    return Err(error);
                },
            };
            if direction == Direction::Both {
                into = drop_loops(into, row);
            }
        }
        Ok((out, into))
    }

    /// The neighbours of a row, stored before buffered.
    pub fn neighbors(&self, store: &GroupStore, catalog: &Catalog, direction: Direction, from: u64) -> (
    result: DevonResult<Vec<u64>>)
        requires
            store.wf(),
        ensures
            match (result, adjacency(store@, catalog@, self@, direction, from)) {
                (Ok(list), Ok((out, into))) => list@ == neighbors_of(out) + neighbors_of(into),
                (Err(error), Err(kind)) => error.kind_of() == kind && (refuses_both(
                    catalog@,
                    self@.schema,
                    direction,
                ) ==> error.text_of() == both_text(self@.schema)),
                _ => false,
            },
    {
        match self.adjacent(store, catalog, direction, from) {
            Err(error) => Err(error),
            Ok((out, into)) => {
                let mut list: Vec<u64> = neighbor_list(&out);
                append_all(&mut list, neighbor_list(&into));
                Ok(list)
            },
        }
    }

    /// Every neighbour that reading a row's adjacency brings into memory.
    /// For sizing; results come from [`RelTable::neighbors`].
    pub fn neighbors_before_filtering(
        &self,
        store: &GroupStore,
        catalog: &Catalog,
        direction: Direction,
        from: u64,
    ) -> (result: DevonResult<Vec<u64>>)
        requires
            store.wf(),
        ensures
            match (result, unfiltered(store@, catalog@, self@, direction, from)) {
                (Ok(list), Ok(edges)) => list@ == neighbors_of(edges),
                (Err(error), Err(kind)) => error.kind_of() == kind && (refuses_both(
                    catalog@,
                    self@.schema,
                    direction,
                ) ==> error.text_of() == both_text(self@.schema)),
                _ => false,
            },
    {
        let (out_side, into_side): (Side, Side) = match self.open(store, catalog, direction) {
            Ok(sides) => sides,
            Err(error) => {
                return Err(error);
            },
        };
        let ghost mut shown: Seq<EdgeView> = Seq::empty();
        let mut list: Vec<u64> = Vec::new();
        assert(list@ =~= neighbors_of(shown));
        if direction != Direction::In {
            match self.resident_edges(store, &out_side, Direction::Out, from) {
                Ok(edges) => {
                    append_all(&mut list, neighbor_list(&edges));
                    proof {
                        shown = groups::edges_of(edges@);
                        assert(list@ =~= neighbors_of(shown));
                    }
                },
                Err(error) => {
                    return Err(error);
                },
            }
        }
        if direction != Direction::Out {
            match self.resident_edges(store, &into_side, Direction::In, from) {
                Ok(edges) => {
                    append_all(&mut list, neighbor_list(&edges));
                    proof {
                        let more = groups::edges_of(edges@);
                        assert(list@ =~= neighbors_of(shown + more));
                        if direction == Direction::In {
                            assert(shown + more =~= more);
                        }
                    }
                },
                Err(error) => {
                    return Err(error);
                },
            }
        }
        Ok(list)
    }

    /// The relationships at a row with their properties, outgoing before
    /// incoming.
    pub fn neighbors_with_properties(
        &self,
        store: &GroupStore,
        catalog: &Catalog,
        direction: Direction,
        from: u64,
    ) -> (result: DevonResult<Vec<ScannedRelationship>>)
        requires
            store.wf(),
        ensures
            match (result, adjacency(store@, catalog@, self@, direction, from)) {
                (Ok(list), Ok((out, into))) => edges::relationships(list@) == relationships_of(
                    out,
                    Direction::Out,
                    from,
                ) + relationships_of(into, Direction::In, from),
                (Err(error), Err(kind)) => error.kind_of() == kind && (refuses_both(
                    catalog@,
                    self@.schema,
                    direction,
                ) ==> error.text_of() == both_text(self@.schema)),
                _ => false,
            },
    {
        match self.adjacent(store, catalog, direction, from) {
            Err(error) => Err(error),
            Ok((out, into)) => {
                let mut list: Vec<ScannedRelationship> = Vec::new();
                assert(edges::relationships(list@) =~= Seq::empty());
                append_relationships(&mut list, out, Direction::Out, from);
                append_relationships(&mut list, into, Direction::In, from);
                assert(edges::relationships(list@) =~= relationships_of(
                    groups::edges_of(out@),
                    Direction::Out,
                    from,
                ) + relationships_of(groups::edges_of(into@), Direction::In, from));
                Ok(list)
            },
        }
    }
}

} // verus!
