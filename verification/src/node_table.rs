//! Node tables: buffered rows over stored groups.

pub mod checkpoint;
pub mod effects;
pub mod packing;

use vstd::prelude::*;

use crate::catalog;
use crate::catalog::{duplicate_ids, Catalog, CatalogView};
use crate::error::{corrupt, invalid_argument, not_found, DevonResult, ErrorKind};
use crate::groups;
use crate::groups::{duplicate_rows, GroupStore, GroupView, NODE_GROUP_CAPACITY};
use crate::keys::value_kind;
use crate::node_table::packing::append_rows;
use crate::schema;
use crate::schema::{first_misfit, ColumnDef, ColumnView, NodeSchemaView, NodeTableSchema};
use crate::text::{and_name, with_name, with_number};
use crate::types;
use crate::types::{duplicate_values, LogicalType, Value, ValueView};

pub use crate::node_table::effects::{DeleteCompaction, NodeDmlEffects};

verus! {

/// A node table: its schema and the rows that are not stored yet.
#[derive(Debug)]
pub struct NodeTable {
    schema: NodeTableSchema,
    buffered_rows: Vec<Vec<Value>>,
}

/// What a node table holds in memory.
#[verifier::ext_equal]
pub struct NodeTableView {
    pub schema: NodeSchemaView,
    pub rows: Seq<Seq<ValueView>>,
}

impl View for NodeTable {
    type V = NodeTableView;

    closed spec fn view(&self) -> NodeTableView {
        NodeTableView { schema: self.schema@, rows: groups::rows_of(self.buffered_rows@) }
    }
}

/// A node insert as the log records it.
#[derive(Debug)]
pub struct RowRecord {
    pub table: String,
    pub row: Vec<Value>,
}

/// Whether rows have the columns of a schema.
pub open spec fn rows_fit(schema: NodeSchemaView, rows: Seq<Seq<ValueView>>) -> bool {
    forall|i: int| 0 <= i < rows.len() ==> schema::row_fits(schema.columns, #[trigger] rows[i])
}

/// The kind of error that a catalog gives which does not hold the table with
/// this schema.
pub open spec fn schema_fault(catalog: CatalogView, schema: NodeSchemaView) -> Option<ErrorKind> {
    match catalog::node_of(catalog, schema.name) {
        None => Some(ErrorKind::NotFound),
        Some(entry) => if entry.schema == schema {
            None
        } else {
            Some(ErrorKind::InvalidArgument)
        },
    }
}

/// The page ids of a table's groups.
pub open spec fn ids_of(catalog: CatalogView, name: Seq<char>) -> Seq<u64> {
    match catalog::node_of(catalog, name) {
        Some(entry) => entry.groups,
        None => Seq::empty(),
    }
}

/// The first primary key column at or behind `from`.
pub open spec fn key_column(columns: Seq<ColumnView>, from: nat) -> Option<nat>
    decreases columns.len() - from,
{
    if from >= columns.len() {
        None
    } else if columns[from as int].primary_key {
        Some(from)
    } else {
        key_column(columns, from + 1)
    }
}

/// The key column is the first that is marked: one is found wherever a column is marked, and none
/// that is marked stands before it.
pub proof fn law_key_column_is_the_first_marked(columns: Seq<ColumnView>, from: nat)
    ensures
        match key_column(columns, from) {
            Some(at) => {
                &&& from <= at < columns.len()
                &&& columns[at as int].primary_key
                &&& forall|i: int| from <= i < at ==> !(#[trigger] columns[i]).primary_key
            },
            None => forall|i: int|
                from <= i < columns.len() ==> !(#[trigger] columns[i]).primary_key,
        },
    decreases columns.len() - from,
{
    if from < columns.len() && !columns[from as int].primary_key {
        law_key_column_is_the_first_marked(columns, from + 1);
    }
}

/// The rows of groups in order; none where one is not readable, or where
/// one before the last is not full.
pub open spec fn stored_rows(
    store: Map<u64, GroupView>,
    ids: Seq<u64>,
    types: Seq<LogicalType>,
    n: nat,
) -> Option<Seq<Seq<ValueView>>>
    decreases n,
{
    if n == 0 {
        Some(Seq::empty())
    } else {
        match (
            stored_rows(store, ids, types, (n - 1) as nat),
            group_at(store, ids, types, (n - 1) as nat),
        ) {
            (Some(before), Some(rows)) => Some(before + rows),
            _ => None,
        }
    }
}

/// The rows of one group, where it is readable and full or the last.
pub open spec fn group_at(
    store: Map<u64, GroupView>,
    ids: Seq<u64>,
    types: Seq<LogicalType>,
    index: nat,
) -> Option<Seq<Seq<ValueView>>> {
    match groups::node_at(store, ids[index as int], types) {
        None => None,
        Some(rows) => if index + 1 < ids.len() && rows.len() < NODE_GROUP_CAPACITY {
            None
        } else {
            Some(rows)
        },
    }
}

/// What a scan of a table gives.
pub open spec fn scan_of(
    store: Map<u64, GroupView>,
    catalog: CatalogView,
    table: NodeTableView,
) -> Option<Seq<Seq<ValueView>>> {
    let ids = ids_of(catalog, table.schema.name);
    match stored_rows(store, ids, schema::types_of(table.schema.columns), ids.len()) {
        Some(rows) => Some(rows + table.rows),
        None => None,
    }
}

/// Finds the first primary key column.
pub(crate) fn primary_key_column(columns: &Vec<ColumnDef>) -> (found: Option<usize>)
    ensures
        match found {
            Some(at) => key_column(schema::columns_of(columns@), 0) == Some(at as nat) && at
                < columns@.len(),
            None => key_column(schema::columns_of(columns@), 0) is None,
        },
{
    let ghost shown = schema::columns_of(columns@);
    let mut i: usize = 0;
    while i < columns.len()
        invariant
            i <= columns@.len(),
            shown == schema::columns_of(columns@),
            key_column(shown, 0) == key_column(shown, i as nat),
        decreases columns@.len() - i,
    {
        assert(shown[i as int] == columns@[i as int]@);
        if columns[i].primary_key {
            return Some(i);
        }
        i += 1;
    }
    None
}

/// Whether a row has the columns of a schema.
pub(crate) fn validate_row(schema: &NodeTableSchema, row: &Vec<Value>) -> (result: DevonResult<()>)
    ensures
        match result {
            Ok(()) => schema::row_fits(schema@.columns, types::views(row@)),
            Err(error) => !schema::row_fits(schema@.columns, types::views(row@)) && error.kind_of()
                == ErrorKind::InvalidArgument,
        },
{
    if row.len() != schema.columns.len() {
        let head: String = with_name("node table `", schema.name.as_str(), "` expects ");
        let middle: String = with_number(
            head.as_str(),
            schema.columns.len() as u64,
            " columns but row has ",
        );
        return Err(
            invalid_argument(with_number(middle.as_str(), row.len() as u64, " values").as_str()),
        );
    }
    match first_misfit(&schema.columns, row) {
        None => Ok(()),
        Some(at) => {
            let head: String = with_name(
                "column `",
                schema.columns[at].name.as_str(),
                "` in node table `",
            );
            let middle: String = and_name(head, schema.name.as_str(), "` expects ");
            let more: String = and_name(middle, schema.columns[at].ty.name(), " but received ");
            Err(invalid_argument(and_name(more, value_kind(&row[at]), "").as_str()))
        },
    }
}

fn ensure_catalog_schema(schema: &NodeTableSchema, catalog: &Catalog) -> (result: DevonResult<()>)
    ensures
        match result {
            Ok(()) => schema_fault(catalog@, schema@) is None,
            Err(error) => schema_fault(catalog@, schema@) == Some(error.kind_of()),
        },
{
    match catalog.node_table(schema.name.as_str()) {
        None => Err(not_found(with_name("node table `", schema.name.as_str(), "`").as_str())),
        Some(found) => {
            if found.same(schema) {
                Ok(())
            } else {
                Err(
                    invalid_argument(
                        with_name(
                            "node table `",
                            schema.name.as_str(),
                            "` schema differs from the catalog",
                        ).as_str(),
                    ),
                )
            }
        },
    }
}

/// The types of columns.
pub(crate) fn column_types(columns: &Vec<ColumnDef>) -> (types: Vec<LogicalType>)
    ensures
        types@ == schema::types_of(schema::columns_of(columns@)),
{
    let mut types: Vec<LogicalType> = Vec::new();
    let mut i: usize = 0;
    while i < columns.len()
        invariant
            i <= columns@.len(),
            types@.len() == i,
            forall|j: int| 0 <= j < i ==> #[trigger] types@[j] == columns@[j].ty,
        decreases columns@.len() - i,
    {
        types.push(columns[i].ty);
        i += 1;
    }
    assert(types@ =~= schema::types_of(schema::columns_of(columns@)));
    types
}

/// Reads one group, where it is full or the last.
fn read_group(store: &GroupStore, ids: &Vec<u64>, types: &Vec<LogicalType>, index: usize) -> (result:
    DevonResult<Vec<Vec<Value>>>)
    requires
        store.wf(),
        index < ids@.len(),
    ensures
        match result {
            Ok(rows) => group_at(store@, ids@, types@, index as nat) == Some(
                groups::rows_of(rows@),
            ),
            Err(error) => group_at(store@, ids@, types@, index as nat) is None && error.kind_of()
                == ErrorKind::Corrupt,
        },
{
    match store.read_rows(ids[index], types) {
        Err(error) => Err(error),
        Ok(rows) => {
            if index < ids.len() - 1 && rows.len() < NODE_GROUP_CAPACITY {
                Err(
                    corrupt(
                        with_number(
                            "node group ",
                            index as u64,
                            " is partial but is not the table's last group",
                        ).as_str(),
                    ),
                )
            } else {
                Ok(rows)
            }
        },
    }
}

/// Once a group is not readable, more groups do not change that.
proof fn lemma_unreadable(
    store: Map<u64, GroupView>,
    ids: Seq<u64>,
    types: Seq<LogicalType>,
    at: nat,
    n: nat,
)
    requires
        at < n,
        group_at(store, ids, types, at) is None,
    ensures
        stored_rows(store, ids, types, n) is None,
    decreases n,
{
    if at + 1 < n {
        lemma_unreadable(store, ids, types, at, (n - 1) as nat);
    }
}

impl NodeTable {
    /// The buffered rows have the columns of the schema.
    pub closed spec fn wf(self) -> bool {
        rows_fit(self.schema@, self@.rows)
    }

    /// A table without buffered rows.
    pub fn new(schema: NodeTableSchema) -> (table: NodeTable)
        ensures
            table.wf(),
            table@ == (NodeTableView { schema: schema@, rows: Seq::empty() }),
    {
        let ghost shown = schema@;
        let table = NodeTable { schema, buffered_rows: Vec::new() };
        assert(table@ =~= NodeTableView { schema: shown, rows: Seq::empty() });
        table
    }

    /// The table's schema.
    pub fn schema(&self) -> (schema: &NodeTableSchema)
        ensures
            schema@ == self@.schema,
    {
        &self.schema
    }

    /// Whether rows wait for a checkpoint.
    pub fn has_buffered_rows(&self) -> (yes: bool)
        ensures
            yes == (self@.rows.len() > 0),
    {
        self.buffered_rows.len() > 0
    }

    /// Buffers a row, and appends its record to the log, whose owner makes
    /// it durable before the insert is acknowledged.
    pub fn insert(&mut self, log: &mut Vec<RowRecord>, row: Vec<Value>) -> (result: DevonResult<()>)
        requires
            old(self).wf(),
        ensures
            final(self).wf(),
            match result {
                Ok(()) => {
                    &&& schema::row_fits(old(self)@.schema.columns, types::views(row@))
                    &&& final(self)@ == (NodeTableView {
                        rows: old(self)@.rows.push(types::views(row@)),
                        ..old(self)@
                    })
                    &&& final(log)@.len() == old(log)@.len() + 1
                    &&& final(log)@.drop_last() == old(log)@
                    &&& final(log)@.last().table@ == old(self)@.schema.name
                    &&& types::views(final(log)@.last().row@) == types::views(row@)
                },
                Err(error) => {
                    &&& !schema::row_fits(old(self)@.schema.columns, types::views(row@))
                    &&& error.kind_of() == ErrorKind::InvalidArgument
                    &&& final(self)@ == old(self)@
                    &&& final(log)@ == old(log)@
                },
            },
    {
        let ghost logged = log@;
        let record = RowRecord {
            table: self.schema.name.clone(),
            row: duplicate_values(row.as_slice()),
        };
        match self.recover_row(row) {
            Ok(()) => {
                log.push(record);
                assert(log@.drop_last() =~= logged);
                Ok(())
            },
            Err(error) => Err(error),
        }
    }

    /// Buffers a row that the log already holds.
    pub fn recover_row(&mut self, row: Vec<Value>) -> (result: DevonResult<()>)
        requires
            old(self).wf(),
        ensures
            final(self).wf(),
            match result {
                Ok(()) => {
                    &&& schema::row_fits(old(self)@.schema.columns, types::views(row@))
                    &&& final(self)@ == (NodeTableView {
                        rows: old(self)@.rows.push(types::views(row@)),
                        ..old(self)@
                    })
                },
                Err(error) => {
                    &&& !schema::row_fits(old(self)@.schema.columns, types::views(row@))
                    &&& error.kind_of() == ErrorKind::InvalidArgument
                    &&& final(self)@ == old(self)@
                },
            },
    {
        match validate_row(&self.schema, &row) {
            Ok(()) => {},
            Err(error) => {
                return Err(error);
            },
        }
        let ghost before = self@;
        let ghost added = types::views(row@);
        self.buffered_rows.push(row);
        assert(self@.rows =~= before.rows.push(added));
        Ok(())
    }

    /// The rows of the stored groups, then the buffered ones.
    pub fn scan(&self, store: &GroupStore, catalog: &Catalog) -> (result: DevonResult<
        Vec<Vec<Value>>,
    >)
        requires
            store.wf(),
        ensures
            match result {
                Ok(rows) => scan_of(store@, catalog@, self@) == Some(groups::rows_of(rows@)),
                Err(error) => scan_of(store@, catalog@, self@) is None && error.kind_of()
                    == ErrorKind::Corrupt,
            },
    {
        let types: Vec<LogicalType> = column_types(&self.schema.columns);
        let ids: Vec<u64> = match catalog.table_groups(self.schema.name.as_str()) {
            Some(ids) => duplicate_ids(ids),
            None => Vec::new(),
        };
        assert(ids@ =~= ids_of(catalog@, self@.schema.name));
        let mut rows: Vec<Vec<Value>> = Vec::new();
        let mut i: usize = 0;
        assert(groups::rows_of(rows@) =~= Seq::empty());
        while i < ids.len()
            invariant
                i <= ids@.len(),
                store.wf(),
                ids@ == ids_of(catalog@, self@.schema.name),
                types@ == schema::types_of(self@.schema.columns),
                stored_rows(store@, ids@, types@, i as nat) == Some(groups::rows_of(rows@)),
            decreases ids@.len() - i,
        {
            match read_group(store, &ids, &types, i) {
                Ok(more) => {
                    append_rows(&mut rows, more);
                },
                Err(error) => {
                    proof {
                        lemma_unreadable(store@, ids@, types@, i as nat, ids@.len());
                    }
                    return Err(error);
                },
            }
            i += 1;
        }
        append_rows(&mut rows, duplicate_rows(&self.buffered_rows));
        Ok(rows)
    }
}

} // verus!
