//! Accounting of where a database file's bytes are, without changing it.

use vstd::prelude::*;

use crate::error::ErrorKind;

pub mod accounting;
pub mod collect;
pub mod facts;
pub mod reader;
pub mod report;
pub mod tree;

verus! {

/// Why a file cannot be inspected.
#[derive(Debug, Clone, PartialEq, Eq)]
pub enum StatsError {
    /// Reading the file failed.
    Io { context: String },
    /// The bytes break the format.
    Corrupt { context: String },
    /// Inspecting takes more memory than it may.
    BudgetExceeded { context: String },
}

impl StatsError {
    /// The kind of this error.
    pub open spec fn kind_of(self) -> ErrorKind {
        match self {
            StatsError::Io { .. } => ErrorKind::Io,
            StatsError::Corrupt { .. } => ErrorKind::Corrupt,
            StatsError::BudgetExceeded { .. } => ErrorKind::BudgetExceeded,
        }
    }

    /// What this error says, in words.
    pub open spec fn words(self) -> Seq<char> {
        match self {
            StatsError::Io { context } => context@,
            StatsError::Corrupt { context } => "corrupt database: "@ + context@,
            StatsError::BudgetExceeded { context } => "memory budget exceeded: "@ + context@,
        }
    }

    /// What this error says, in words.
    pub fn message(&self) -> (text: String)
        ensures
            text@ == self.words(),
    {
        match self {
            StatsError::Io { context } => context.clone(),
            StatsError::Corrupt { context } => {
                let mut text: String = "corrupt database: ".to_owned();
                text.append(context.as_str());
                text
            },
            StatsError::BudgetExceeded { context } => {
                let mut text: String = "memory budget exceeded: ".to_owned();
                text.append(context.as_str());
                text
            },
        }
    }
}

/// The bytes break the format.
pub(crate) fn corrupt(context: &str) -> (error: StatsError)
    ensures
        error.kind_of() == ErrorKind::Corrupt,
{
    StatsError::Corrupt { context: context.to_owned() }
}

/// Inspecting takes more memory than it may.
pub(crate) fn over_budget(context: &str) -> (error: StatsError)
    ensures
        error.kind_of() == ErrorKind::BudgetExceeded,
{
    StatsError::BudgetExceeded { context: context.to_owned() }
}

/// The kind of a file.
#[derive(Debug, Clone, Copy, PartialEq, Eq, Structural)]
pub enum StorageKind {
    /// A database file.
    Database,
    /// A distribution container.
    Pack,
}

/// How many pages a file has, by what they are for.
#[derive(Debug, Clone, Copy, PartialEq, Eq, Structural)]
pub struct PageCounts {
    /// All pages.
    pub total: u64,
    /// The pages of tables and indexes.
    pub live: u64,
    /// The pages that the ledger lists as free.
    pub free: u64,
    /// The pages of superblocks, catalog and ledger.
    pub metadata: u64,
    /// The pages that nothing names.
    pub unaccounted: u64,
}

/// The pages of a table.
#[derive(Debug, Clone, PartialEq, Eq)]
pub struct TableBytes {
    /// The name of the table as it was declared.
    pub name: String,
    /// How many pages the table has.
    pub pages: u64,
    /// How many bytes these are.
    pub bytes: u64,
}

/// What a table's pages are.
#[verifier::ext_equal]
pub struct TableView {
    pub name: Seq<char>,
    pub pages: u64,
    pub bytes: u64,
}

impl View for TableBytes {
    type V = TableView;

    open spec fn view(&self) -> TableView {
        TableView { name: self.name@, pages: self.pages, bytes: self.bytes }
    }
}

/// What tables' pages are.
pub open spec fn tables_of(tables: Seq<TableBytes>) -> Seq<TableView> {
    tables.map_values(|table: TableBytes| table@)
}

/// Whether a file has a ledger of free pages.
#[derive(Debug, Clone, Copy, PartialEq, Eq, Structural)]
pub enum FreeLedgerStatus {
    /// There is none.
    NotPresent,
    /// There is one, and it can be read.
    Active,
    /// Where it would begin cannot be read.
    Degraded,
    /// A container's pages are not looked at.
    NotApplicable,
}

/// Where a file's bytes are.
#[derive(Debug, Clone, PartialEq, Eq)]
pub struct StorageStats {
    /// The kind of the file.
    pub kind: StorageKind,
    /// The bytes of the file.
    pub file_bytes: u64,
    /// The size of a page.
    pub page_size: Option<u32>,
    /// The pages by what they are for.
    pub pages: Option<PageCounts>,
    /// The node tables in the order of their names.
    pub node_tables: Option<Vec<TableBytes>>,
    /// The relationship tables in the order of their names.
    pub rel_tables: Option<Vec<TableBytes>>,
    /// The bytes of the log.
    pub wal_bytes: Option<u64>,
    /// The names of the features that the file uses.
    pub feature_bits: Option<Vec<String>>,
    /// Whether there is a ledger of free pages.
    pub free_ledger: FreeLedgerStatus,
    /// The bytes that a container unpacks to.
    pub pack_logical_bytes: Option<u64>,
    /// The pages that a container unpacks to.
    pub pack_logical_pages: Option<u64>,
}

/// What statistics say.
#[verifier::ext_equal]
pub struct StatsView {
    pub kind: StorageKind,
    pub file_bytes: u64,
    pub page_size: Option<u32>,
    pub pages: Option<PageCounts>,
    pub node_tables: Option<Seq<TableView>>,
    pub rel_tables: Option<Seq<TableView>>,
    pub wal_bytes: Option<u64>,
    pub feature_bits: Option<Seq<Seq<char>>>,
    pub free_ledger: FreeLedgerStatus,
    pub pack_logical_bytes: Option<u64>,
    pub pack_logical_pages: Option<u64>,
}

/// What optional tables are.
pub open spec fn some_tables(tables: Option<Vec<TableBytes>>) -> Option<Seq<TableView>> {
    match tables {
        Some(tables) => Some(tables_of(tables@)),
        None => None,
    }
}

/// What names say.
pub open spec fn names_of(names: Seq<String>) -> Seq<Seq<char>> {
    names.map_values(|name: String| name@)
}

/// What optional names say.
pub open spec fn some_names(names: Option<Vec<String>>) -> Option<Seq<Seq<char>>> {
    match names {
        Some(names) => Some(names_of(names@)),
        None => None,
    }
}

impl View for StorageStats {
    type V = StatsView;

    open spec fn view(&self) -> StatsView {
        StatsView {
            kind: self.kind,
            file_bytes: self.file_bytes,
            page_size: self.page_size,
            pages: self.pages,
            node_tables: some_tables(self.node_tables),
            rel_tables: some_tables(self.rel_tables),
            wal_bytes: self.wal_bytes,
            feature_bits: some_names(self.feature_bits),
            free_ledger: self.free_ledger,
            pack_logical_bytes: self.pack_logical_bytes,
            pack_logical_pages: self.pack_logical_pages,
        }
    }
}

} // verus!
