//! Statistics as text, one screen.

use vstd::prelude::*;

use crate::saturating;
use crate::saturating::times;
use crate::stats;
use crate::stats::{
    FreeLedgerStatus, PageCounts, StatsView, StorageKind, StorageStats, TableBytes, TableView,
};
use crate::text;
use crate::text::{with_name, with_number};

verus! {

/// A line with a number.
pub open spec fn number_line(label: Seq<char>, number: nat) -> Seq<char> {
    label + text::decimal(number) + "\n"@
}

/// The line of a count of pages.
pub open spec fn count_line(label: Seq<char>, pages: u64, page_size: u32) -> Seq<char> {
    "  "@ + label + ": "@ + text::decimal(pages as nat) + " ("@ + text::decimal(
        saturating::capped(pages as nat * page_size as nat),
    ) + " bytes)\n"@
}

/// The line of a table.
pub open spec fn table_line(table: TableView) -> Seq<char> {
    "  "@ + table.name + ": "@ + text::decimal(table.bytes as nat) + " bytes ("@ + text::decimal(
        table.pages as nat,
    ) + " pages)\n"@
}

/// The lines of tables.
pub open spec fn table_lines(tables: Seq<TableView>) -> Seq<char>
    decreases tables.len(),
{
    if tables.len() == 0 {
        Seq::empty()
    } else {
        table_lines(tables.drop_last()) + table_line(tables.last())
    }
}

/// A list of tables under a heading.
pub open spec fn tables_text(label: Seq<char>, tables: Seq<TableView>) -> Seq<char> {
    label + ":\n"@ + if tables.len() == 0 {
        "  (none)\n"@
    } else {
        table_lines(tables)
    }
}

/// The lines of features.
pub open spec fn feature_lines(features: Seq<Seq<char>>) -> Seq<char>
    decreases features.len(),
{
    if features.len() == 0 {
        Seq::empty()
    } else {
        feature_lines(features.drop_last()) + ("  "@ + features.last() + "\n"@)
    }
}

/// The list of features.
pub open spec fn features_text(features: Seq<Seq<char>>) -> Seq<char> {
    "feature bits:\n"@ + if features.len() == 0 {
        "  (none)\n"@
    } else {
        feature_lines(features)
    }
}

/// The name of a ledger's state.
pub open spec fn ledger_words(status: FreeLedgerStatus) -> Seq<char> {
    match status {
        FreeLedgerStatus::NotPresent => "not present"@,
        FreeLedgerStatus::Active => "active"@,
        FreeLedgerStatus::Degraded => "degraded (extension CRC mismatch)"@,
        FreeLedgerStatus::NotApplicable => "not applicable"@,
    }
}

/// The items of a list that may be absent.
pub open spec fn or_none<T>(list: Option<Seq<T>>) -> Seq<T> {
    match list {
        Some(items) => items,
        None => Seq::empty(),
    }
}

/// A number that may be absent.
pub open spec fn or_zero(number: Option<u64>) -> nat {
    match number {
        Some(number) => number as nat,
        None => 0,
    }
}

/// The size of a page, zero where it is absent.
pub open spec fn size_or_zero(stats: StatsView) -> u32 {
    match stats.page_size {
        Some(size) => size,
        None => 0,
    }
}

/// The counts of pages, zeros where they are absent.
pub open spec fn counts_or_zeros(stats: StatsView) -> PageCounts {
    match stats.pages {
        Some(pages) => pages,
        None => PageCounts { total: 0, live: 0, free: 0, metadata: 0, unaccounted: 0 },
    }
}

/// The text of a database's statistics.
pub open spec fn database_text(stats: StatsView) -> Seq<char> {
    let size = size_or_zero(stats);
    let pages = counts_or_zeros(stats);
    number_line("page size: "@, size as nat) + "pages:\n"@ + count_line(
        "total"@,
        pages.total,
        size,
    ) + count_line("live"@, pages.live, size) + count_line("free"@, pages.free, size) + count_line(
        "metadata"@,
        pages.metadata,
        size,
    ) + count_line("unaccounted"@, pages.unaccounted, size) + ("free ledger: "@ + ledger_words(
        stats.free_ledger,
    ) + "\n"@) + tables_text("node tables"@, or_none(stats.node_tables)) + tables_text(
        "relationship tables"@,
        or_none(stats.rel_tables),
    ) + number_line("wal bytes: "@, or_zero(stats.wal_bytes)) + features_text(
        or_none(stats.feature_bits),
    )
}

/// The text of a container's statistics.
pub open spec fn pack_text(stats: StatsView) -> Seq<char> {
    number_line("logical main bytes: "@, or_zero(stats.pack_logical_bytes)) + number_line(
        "logical main pages: "@,
        or_zero(stats.pack_logical_pages),
    ) + "page size: not applicable (DEVONPACK container)\n"@
        + "pages: not applicable (compressed container)\n"@
        + "free ledger: not applicable (compressed container)\n"@
        + "node tables: not applicable (compressed container)\n"@
        + "relationship tables: not applicable (compressed container)\n"@
        + "wal bytes: not applicable (checkpoint image)\n"@
        + "feature bits: not applicable (stored inside compressed pages)\n"@
}

/// The text of statistics.
pub open spec fn text_of(stats: StatsView) -> Seq<char> {
    "storage stats\n"@ + match stats.kind {
        StorageKind::Database => "kind: database\n"@,
        StorageKind::Pack => "kind: pack\n"@,
    } + number_line("file bytes: "@, stats.file_bytes as nat) + match stats.kind {
        StorageKind::Database => database_text(stats),
        StorageKind::Pack => pack_text(stats),
    }
}

fn push_number(output: &mut String, label: &str, number: u64)
    ensures
        final(output)@ == old(output)@ + number_line(label@, number as nat),
{
    let line: String = with_number(label, number, "\n");
    output.append(line.as_str());
}

fn push_count(output: &mut String, label: &str, pages: u64, page_size: u32)
    ensures
        final(output)@ == old(output)@ + count_line(label@, pages, page_size),
{
    let head: String = with_name("  ", label, ": ");
    let middle: String = with_number(head.as_str(), pages, " (");
    let line: String = with_number(
        middle.as_str(),
        times(pages, page_size as u64),
        " bytes)\n",
    );
    output.append(line.as_str());
    assert(output@ =~= old(output)@ + count_line(label@, pages, page_size));
}

fn push_tables(output: &mut String, label: &str, tables: &Option<Vec<TableBytes>>)
    ensures
        final(output)@ == old(output)@ + tables_text(label@, or_none(stats::some_tables(*tables))),
{
    let ghost first = output@;
    let head: String = with_name("", label, ":\n");
    output.append(head.as_str());
    proof {
        reveal_strlit("");
    }
    assert(output@ =~= first + (label@ + ":\n"@));
    match tables {
        Some(tables) => {
            let ghost shown = stats::tables_of(tables@);
            if tables.len() == 0 {
                output.append("  (none)\n");
            } else {
                let ghost begun = output@;
                let mut i: usize = 0;
                assert(shown.subrange(0, 0) =~= Seq::empty());
                assert(output@ =~= begun + table_lines(shown.subrange(0, 0)));
                while i < tables.len()
                    invariant
                        i <= tables@.len(),
                        shown == stats::tables_of(tables@),
                        output@ == begun + table_lines(shown.subrange(0, i as int)),
                    decreases tables@.len() - i,
                {
                    proof {
                        let next = shown.subrange(0, i + 1);
                        assert(next.drop_last() =~= shown.subrange(0, i as int));
                        assert(next.last() == tables@[i as int]@);
                    }
                    let table: &TableBytes = &tables[i];
                    let start: String = with_name("  ", table.name.as_str(), ": ");
                    let middle: String = with_number(start.as_str(), table.bytes, " bytes (");
                    let line: String = with_number(middle.as_str(), table.pages, " pages)\n");
                    output.append(line.as_str());
                    assert(line@ =~= table_line(table@));
                    assert(output@ =~= begun + table_lines(shown.subrange(0, i + 1)));
                    i += 1;
                }
                assert(shown.subrange(0, shown.len() as int) =~= shown);
            }
        },
        None => {
            output.append("  (none)\n");
        },
    }
    assert(output@ =~= first + tables_text(label@, or_none(stats::some_tables(*tables))));
}

fn push_features(output: &mut String, features: &Option<Vec<String>>)
    ensures
        final(output)@ == old(output)@ + features_text(or_none(stats::some_names(*features))),
{
    let ghost first = output@;
    output.append("feature bits:\n");
    match features {
        Some(features) => {
            let ghost shown = stats::names_of(features@);
            if features.len() == 0 {
                output.append("  (none)\n");
            } else {
                let ghost begun = output@;
                let mut i: usize = 0;
                assert(shown.subrange(0, 0) =~= Seq::empty());
                assert(output@ =~= begun + feature_lines(shown.subrange(0, 0)));
                while i < features.len()
                    invariant
                        i <= features@.len(),
                        shown == stats::names_of(features@),
                        output@ == begun + feature_lines(shown.subrange(0, i as int)),
                    decreases features@.len() - i,
                {
                    proof {
                        let next = shown.subrange(0, i + 1);
                        assert(next.drop_last() =~= shown.subrange(0, i as int));
                        assert(next.last() == features@[i as int]@);
                    }
                    let line: String = with_name("  ", features[i].as_str(), "\n");
                    output.append(line.as_str());
                    assert(output@ =~= begun + feature_lines(shown.subrange(0, i + 1)));
                    i += 1;
                }
                assert(shown.subrange(0, shown.len() as int) =~= shown);
            }
        },
        None => {
            output.append("  (none)\n");
        },
    }
    assert(output@ =~= first + features_text(or_none(stats::some_names(*features))));
}

fn ledger_name(status: FreeLedgerStatus) -> (name: &'static str)
    ensures
        name@ == ledger_words(status),
{
    match status {
        FreeLedgerStatus::NotPresent => "not present",
        FreeLedgerStatus::Active => "active",
        FreeLedgerStatus::Degraded => "degraded (extension CRC mismatch)",
        FreeLedgerStatus::NotApplicable => "not applicable",
    }
}

fn write_database_text(stats: &StorageStats, output: &mut String)
    ensures
        final(output)@ == old(output)@ + database_text(stats@),
{
    let mut text: String = String::new();
    let page_size: u32 = match stats.page_size {
        Some(size) => size,
        None => 0,
    };
    let pages: PageCounts = match stats.pages {
        Some(pages) => pages,
        None => PageCounts { total: 0, live: 0, free: 0, metadata: 0, unaccounted: 0 },
    };
    push_number(&mut text, "page size: ", page_size as u64);
    assert(text@ =~= number_line("page size: "@, page_size as nat));
    text.append("pages:\n");
    push_count(&mut text, "total", pages.total, page_size);
    push_count(&mut text, "live", pages.live, page_size);
    push_count(&mut text, "free", pages.free, page_size);
    push_count(&mut text, "metadata", pages.metadata, page_size);
    push_count(&mut text, "unaccounted", pages.unaccounted, page_size);
    let line: String = with_name("free ledger: ", ledger_name(stats.free_ledger), "\n");
    text.append(line.as_str());
    push_tables(&mut text, "node tables", &stats.node_tables);
    push_tables(&mut text, "relationship tables", &stats.rel_tables);
    push_number(
        &mut text,
        "wal bytes: ",
        match stats.wal_bytes {
            Some(bytes) => bytes,
            None => 0,
        },
    );
    push_features(&mut text, &stats.feature_bits);
    assert(text@ == database_text(stats@));
    output.append(text.as_str());
}

fn write_pack_text(stats: &StorageStats, output: &mut String)
    ensures
        final(output)@ == old(output)@ + pack_text(stats@),
{
    let mut text: String = String::new();
    push_number(
        &mut text,
        "logical main bytes: ",
        match stats.pack_logical_bytes {
            Some(bytes) => bytes,
            None => 0,
        },
    );
    assert(text@ =~= number_line("logical main bytes: "@, or_zero(stats@.pack_logical_bytes)));
    push_number(
        &mut text,
        "logical main pages: ",
        match stats.pack_logical_pages {
            Some(pages) => pages,
            None => 0,
        },
    );
    text.append("page size: not applicable (DEVONPACK container)\n");
    text.append("pages: not applicable (compressed container)\n");
    text.append("free ledger: not applicable (compressed container)\n");
    text.append("node tables: not applicable (compressed container)\n");
    text.append("relationship tables: not applicable (compressed container)\n");
    text.append("wal bytes: not applicable (checkpoint image)\n");
    text.append("feature bits: not applicable (stored inside compressed pages)\n");
    assert(text@ == pack_text(stats@));
    output.append(text.as_str());
}

/// Appends the text of statistics.
pub fn write_text(stats: &StorageStats, output: &mut String)
    ensures
        final(output)@ == old(output)@ + text_of(stats@),
{
    let ghost first = output@;
    output.append("storage stats\n");
    match stats.kind {
        StorageKind::Database => {
            output.append("kind: database\n");
        },
        StorageKind::Pack => {
            output.append("kind: pack\n");
        },
    }
    push_number(output, "file bytes: ", stats.file_bytes);
    match stats.kind {
        StorageKind::Database => {
            write_database_text(stats, output);
        },
        StorageKind::Pack => {
            write_pack_text(stats, output);
        },
    }
    assert(output@ =~= first + text_of(stats@));
}

} // verus!
