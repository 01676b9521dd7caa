//! The declared shape of node and relationship tables.

use vstd::prelude::*;

use crate::text::same_text;
use crate::types::{LogicalType, Value, ValueView};

verus! {

/// One declared column.
#[derive(Debug, Clone, PartialEq, Eq)]
pub struct ColumnDef {
    pub name: String,
    pub ty: LogicalType,
    pub primary_key: bool,
}

/// What a column declares.
#[verifier::ext_equal]
pub struct ColumnView {
    pub name: Seq<char>,
    pub ty: LogicalType,
    pub primary_key: bool,
}

impl View for ColumnDef {
    type V = ColumnView;

    open spec fn view(&self) -> ColumnView {
        ColumnView { name: self.name@, ty: self.ty, primary_key: self.primary_key }
    }
}

/// What columns declare.
pub open spec fn columns_of(columns: Seq<ColumnDef>) -> Seq<ColumnView> {
    columns.map_values(|column: ColumnDef| column@)
}

impl ColumnDef {
    /// A copy.
    pub fn duplicate(&self) -> (copy: ColumnDef)
        ensures
            copy@ == self@,
    {
        ColumnDef { name: self.name.clone(), ty: self.ty, primary_key: self.primary_key }
    }

    /// Whether two columns declare the same.
    pub fn same(&self, other: &ColumnDef) -> (same: bool)
        ensures
            same == (self@ == other@),
    {
        same_text(&self.name, &other.name) && self.ty == other.ty && self.primary_key
            == other.primary_key
    }
}

/// Copies of columns.
pub fn duplicate_columns(columns: &Vec<ColumnDef>) -> (copy: Vec<ColumnDef>)
    ensures
        columns_of(copy@) == columns_of(columns@),
{
    let mut copy: Vec<ColumnDef> = Vec::new();
    let mut i: usize = 0;
    while i < columns.len()
        invariant
            i <= columns@.len(),
            copy@.len() == i,
            forall|j: int| 0 <= j < i ==> (#[trigger] copy@[j])@ == columns@[j]@,
        decreases columns@.len() - i,
    {
        copy.push(columns[i].duplicate());
        i += 1;
    }
    assert(columns_of(copy@) =~= columns_of(columns@));
    copy
}

fn same_columns(a: &Vec<ColumnDef>, b: &Vec<ColumnDef>) -> (same: bool)
    ensures
        same == (columns_of(a@) == columns_of(b@)),
{
    if a.len() != b.len() {
        assert(columns_of(a@).len() != columns_of(b@).len());
        return false;
    }
    let mut i: usize = 0;
    while i < a.len()
        invariant
            i <= a@.len(),
            a@.len() == b@.len(),
            forall|j: int| 0 <= j < i ==> (#[trigger] a@[j])@ == b@[j]@,
        decreases a@.len() - i,
    {
        if !a[i].same(&b[i]) {
            assert(columns_of(a@)[i as int] != columns_of(b@)[i as int]);
            return false;
        }
        i += 1;
    }
    assert(columns_of(a@) =~= columns_of(b@));
    true
}

/// Whether a row has one fitting value per column.
pub open spec fn row_fits(columns: Seq<ColumnView>, row: Seq<ValueView>) -> bool {
    &&& row.len() == columns.len()
    &&& forall|i: int| 0 <= i < row.len() ==> (#[trigger] row[i]).fits_type(columns[i].ty)
}

/// The types of columns.
pub open spec fn types_of(columns: Seq<ColumnView>) -> Seq<LogicalType> {
    columns.map_values(|column: ColumnView| column.ty)
}

/// The first value of a row that does not fit its column.
pub fn first_misfit(columns: &Vec<ColumnDef>, row: &Vec<Value>) -> (misfit: Option<usize>)
    requires
        row@.len() == columns@.len(),
    ensures
        match misfit {
            Some(at) => at < row@.len() && !row_fits(
                columns_of(columns@),
                crate::types::views(row@),
            ),
            None => row_fits(columns_of(columns@), crate::types::views(row@)),
        },
{
    let ghost shown = crate::types::views(row@);
    let mut i: usize = 0;
    while i < row.len()
        invariant
            i <= row@.len(),
            row@.len() == columns@.len(),
            shown == crate::types::views(row@),
            forall|j: int|
                0 <= j < i ==> (#[trigger] shown[j]).fits_type(columns_of(columns@)[j].ty),
        decreases row@.len() - i,
    {
        if !row[i].matches_type(&columns[i].ty) {
            assert(!shown[i as int].fits_type(columns_of(columns@)[i as int].ty));
            return Some(i);
        }
        i += 1;
    }
    None
}

/// A node table's name and columns.
#[derive(Debug, Clone, PartialEq, Eq)]
pub struct NodeTableSchema {
    pub name: String,
    pub columns: Vec<ColumnDef>,
}

/// What a node table declares.
#[verifier::ext_equal]
pub struct NodeSchemaView {
    pub name: Seq<char>,
    pub columns: Seq<ColumnView>,
}

impl View for NodeTableSchema {
    type V = NodeSchemaView;

    open spec fn view(&self) -> NodeSchemaView {
        NodeSchemaView { name: self.name@, columns: columns_of(self.columns@) }
    }
}

impl NodeTableSchema {
    /// A copy.
    pub fn duplicate(&self) -> (copy: NodeTableSchema)
        ensures
            copy@ == self@,
    {
        NodeTableSchema { name: self.name.clone(), columns: duplicate_columns(&self.columns) }
    }

    /// Whether two tables declare the same.
    pub fn same(&self, other: &NodeTableSchema) -> (same: bool)
        ensures
            same == (self@ == other@),
    {
        same_text(&self.name, &other.name) && same_columns(&self.columns, &other.columns)
    }
}

/// A relationship table's name, endpoint tables and property columns.
#[derive(Debug, Clone, PartialEq, Eq)]
pub struct RelTableSchema {
    pub name: String,
    pub from: String,
    pub to: String,
    pub columns: Vec<ColumnDef>,
}

/// What a relationship table declares.
#[verifier::ext_equal]
pub struct RelSchemaView {
    pub name: Seq<char>,
    pub from: Seq<char>,
    pub to: Seq<char>,
    pub columns: Seq<ColumnView>,
}

impl View for RelTableSchema {
    type V = RelSchemaView;

    open spec fn view(&self) -> RelSchemaView {
        RelSchemaView {
            name: self.name@,
            from: self.from@,
            to: self.to@,
            columns: columns_of(self.columns@),
        }
    }
}

impl RelTableSchema {
    /// A copy.
    pub fn duplicate(&self) -> (copy: RelTableSchema)
        ensures
            copy@ == self@,
    {
        RelTableSchema {
            name: self.name.clone(),
            from: self.from.clone(),
            to: self.to.clone(),
            columns: duplicate_columns(&self.columns),
        }
    }

    /// Whether two tables declare the same.
    pub fn same(&self, other: &RelTableSchema) -> (same: bool)
        ensures
            same == (self@ == other@),
    {
        same_text(&self.name, &other.name) && same_text(&self.from, &other.from) && same_text(
            &self.to,
            &other.to,
        ) && same_columns(&self.columns, &other.columns)
    }

    /// The types of the property columns.
    pub fn types(&self) -> (types: Vec<LogicalType>)
        ensures
            types@ == types_of(self@.columns),
    {
        let mut types: Vec<LogicalType> = Vec::new();
        let mut i: usize = 0;
        while i < self.columns.len()
            invariant
                i <= self.columns@.len(),
                types@.len() == i,
                forall|j: int| 0 <= j < i ==> #[trigger] types@[j] == self.columns@[j].ty,
            decreases self.columns@.len() - i,
        {
            types.push(self.columns[i].ty);
            i += 1;
        }
        assert(types@ =~= types_of(self@.columns));
        types
    }
}

} // verus!
