//! The whole account of a file's bytes.

use vstd::prelude::*;
use vstd::slice::slice_subrange;

use crate::budget::MemoryBudget;
use crate::bytes;
use crate::bytes::get_le;
use crate::checksum::crc32c;
use crate::error::ErrorKind;
use crate::names;
use crate::names::NameMap;
use crate::order;
use crate::pack;
use crate::pack::{check_container, check_frame_count, check_header, FrameEntry};
use crate::picked;
use crate::saturating;
use crate::saturating::times;
use crate::stats::accounting;
use crate::stats::accounting::{
    account_group, Accounting, GroupLayout, PageClass, Progress, Scene,
};
use crate::stats::facts;
use crate::stats::facts::{
    parse_catalog, CatalogFacts, FactsView, IndexRoot, StorageRoots, TableDefinition,
};
use crate::stats::reader;
use crate::stats::reader::{
    account_free_ledger, account_one_index, charge, load_catalog, select_superblock, Head,
};
use crate::stats::{
    corrupt, over_budget, FreeLedgerStatus, PageCounts, StatsError, StatsView, StorageKind,
    StorageStats, TableBytes, TableView,
};
use crate::superblock::valid_page_size;
use crate::text;
use crate::text::{fold, push_decimal, with_name, with_number};
use crate::types::text_len;

verus! {

/// The bytes charged for the names of features.
pub const FEATURE_NAMES_BYTES: usize = 4096;

/// The bytes charged for a table besides its name.
pub const TABLE_BYTES: usize = 64;

/// How many bytes a container's header has.
pub const PACK_HEADER_BYTES: usize = 40;

/// How many bytes a container's directory has for a frame.
pub const PACK_ENTRY_BYTES: usize = 16;

/// What a feature's bit is called.
pub open spec fn feature_name(bit: nat) -> Seq<char> {
    if bit == 0 {
        "HNSW_INDEX"@
    } else if bit == 1 {
        "ONTOLOGY"@
    } else if bit == 2 {
        "PINNED_PLANS"@
    } else if bit == 3 {
        "ZONE_MAPS"@
    } else if bit == 4 {
        "GEO_COLUMNS"@
    } else if bit == 5 {
        "FREE_PAGES"@
    } else if bit == 6 {
        "DML_WAL"@
    } else if bit == 7 {
        "SCALAR_TYPES_V2"@
    } else if bit == 8 {
        "MULTIPROCESS_COORDINATION"@
    } else if bit == 9 {
        "MULTIPAGE_CATALOG"@
    } else if bit == 10 {
        "REL_TOMBSTONE_WAL"@
    } else if bit == 12 {
        "RESERVED_READ_SAFE_12"@
    } else if bit == 13 {
        "COLUMN_ENCODINGS"@
    } else {
        "UNKNOWN"@
    }
}

/// How a feature's bit is reported.
pub open spec fn feature_text(bit: nat) -> Seq<char> {
    feature_name(bit) + " (bit "@ + text::decimal(bit) + ")"@
}

/// How the features among the first `n` bits are reported.
pub open spec fn features_among(flags: u64, n: nat) -> Seq<Seq<char>>
    decreases n,
{
    if n == 0 {
        Seq::empty()
    } else {
        let before = features_among(flags, (n - 1) as nat);
        if flags & (1u64 << ((n - 1) as u64)) != 0 {
            before.push(feature_text((n - 1) as nat))
        } else {
            before
        }
    }
}

/// Every flag that is set is named, the lower ones first, and no other.
pub proof fn law_set_flags_are_named(flags: u64, n: nat)
    requires
        n <= 64,
    ensures
        picked::gives(
            features_among(flags, n),
            Seq::new(n, |i: int| i),
            |i: int|
                if flags & (1u64 << (i as u64)) != 0 {
                    Some(feature_name(i as nat) + " (bit "@ + text::decimal(i as nat) + ")"@)
                } else {
                    None
                },
        ),
    decreases n,
{
    let of = |i: int|
        if flags & (1u64 << (i as u64)) != 0 {
            Some(feature_name(i as nat) + " (bit "@ + text::decimal(i as nat) + ")"@)
        } else {
            None
        };
    let all = Seq::new(n, |i: int| i);
    if n == 0 {
        picked::lemma_gives_none(all, of);
    } else {
        let rest = Seq::new((n - 1) as nat, |i: int| i);
        law_set_flags_are_named(flags, (n - 1) as nat);
        assert(all =~= rest.push(n - 1));
        picked::lemma_gives_more(features_among(flags, (n - 1) as nat), rest, of, n - 1);
    }
}

fn name_of_feature(bit: u64) -> (name: &'static str)
    ensures
        name@ == feature_name(bit as nat),
{
    match bit {
        0 => "HNSW_INDEX",
        1 => "ONTOLOGY",
        2 => "PINNED_PLANS",
        3 => "ZONE_MAPS",
        4 => "GEO_COLUMNS",
        5 => "FREE_PAGES",
        6 => "DML_WAL",
        7 => "SCALAR_TYPES_V2",
        8 => "MULTIPROCESS_COORDINATION",
        9 => "MULTIPAGE_CATALOG",
        10 => "REL_TOMBSTONE_WAL",
        12 => "RESERVED_READ_SAFE_12",
        13 => "COLUMN_ENCODINGS",
        _ => "UNKNOWN",
    }
}

/// How a file's features are reported.
pub fn feature_names(flags: u64) -> (names: Vec<String>)
    ensures
        crate::stats::names_of(names@) == features_among(flags, 64),
{
    let mut found: Vec<String> = Vec::new();
    let mut bit: u64 = 0;
    assert(crate::stats::names_of(found@) =~= Seq::empty());
    while bit < 64
        invariant
            bit <= 64,
            crate::stats::names_of(found@) == features_among(flags, bit as nat),
        decreases 64 - bit,
    {
        if flags & (1u64 << bit) != 0 {
            let mut name: String = name_of_feature(bit).to_owned();
            name.append(" (bit ");
            push_decimal(&mut name, bit);
            name.append(")");
            let ghost before = crate::stats::names_of(found@);
            let ghost added = name@;
            found.push(name);
            assert(crate::stats::names_of(found@) =~= before.push(added));
        }
        bit += 1;
    }
    found
}

/// What a container's statistics are, within a limit of memory.
pub open spec fn pack_stats(data: Seq<u8>, limit: nat) -> Result<StatsView, ErrorKind> {
    let page_count = bytes::le_at(data, 16, 8);
    let frame_pages = bytes::le_at(data, 24, 4);
    let count = bytes::le_at(data, 28, 8);
    if PACK_HEADER_BYTES > limit {
        Err(ErrorKind::BudgetExceeded)
    } else if !pack::header_holds(data) || frame_pages == 0 || pack::frame_total(
        page_count,
        frame_pages,
    ) != count || count * PACK_ENTRY_BYTES > usize::MAX {
        Err(ErrorKind::Corrupt)
    } else if PACK_HEADER_BYTES + count * PACK_ENTRY_BYTES > limit {
        Err(ErrorKind::BudgetExceeded)
    } else {
        match pack::pack_of(data) {
            None => Err(ErrorKind::Corrupt),
            Some(pack) => if pack.total_len() > u64::MAX {
                Err(ErrorKind::Corrupt)
            } else {
                Ok(
                    StatsView {
                        kind: StorageKind::Pack,
                        file_bytes: data.len() as u64,
                        page_size: None,
                        pages: None,
                        node_tables: None,
                        rel_tables: None,
                        wal_bytes: None,
                        feature_bits: None,
                        free_ledger: FreeLedgerStatus::NotApplicable,
                        pack_logical_bytes: Some(pack.total_len() as u64),
                        pack_logical_pages: Some(pack.page_count),
                    },
                )
            },
        }
    }
}

/// What is said of bytes that do not begin with a container's header.
fn header_fault(data: &Vec<u8>) -> (error: StatsError)
    ensures
        error.kind_of() == ErrorKind::Corrupt,
{
    if data.len() < PACK_HEADER_BYTES {
        return corrupt("DEVONPACK header is truncated");
    }
    let header: &[u8] = slice_subrange(data.as_slice(), 0, PACK_HEADER_BYTES);
    if header[9] != 1 {
        return corrupt(
            with_number(
                "unsupported DEVONPACK container version ",
                header[9] as u64,
                "",
            ).as_str(),
        );
    }
    if get_le(header, 10, 2) != 1 {
        return corrupt("unsupported DEVONPACK codec");
    }
    proof {
        bytes::lemma_radix_values();
    }
    if !valid_page_size(get_le(header, 12, 4) as u32) {
        return corrupt("invalid page size");
    }
    if crc32c(slice_subrange(header, 0, 36)) as u64 != get_le(header, 36, 4) {
        return corrupt("DEVONPACK header CRC-32C does not match");
    }
    corrupt("bad DEVONPACK magic")
}

/// What is said of a container whose directory is not in order.
fn directory_fault(data: &Vec<u8>, directory: usize) -> (error: StatsError)
    ensures
        error.kind_of() == ErrorKind::Corrupt,
{
    let size: usize = data.len();
    if size < PACK_HEADER_BYTES || size - PACK_HEADER_BYTES < directory {
        return corrupt("DEVONPACK frame directory is truncated");
    }
    let end: usize = PACK_HEADER_BYTES + directory;
    if size - end < 4 {
        return corrupt("DEVONPACK directory CRC is truncated");
    }
    let computed: u32 = crc32c(slice_subrange(data.as_slice(), PACK_HEADER_BYTES, end));
    if computed as u64 != get_le(data.as_slice(), end, 4) {
        return corrupt("DEVONPACK directory CRC-32C does not match");
    }
    let mut at: usize = PACK_HEADER_BYTES;
    while at < end && end - at >= PACK_ENTRY_BYTES
        invariant
            at <= end,
            end + 4 <= size == data@.len(),
        decreases end - at,
    {
        let offset: u64 = get_le(data.as_slice(), at, 8);
        let len: u64 = get_le(data.as_slice(), at + 8, 4);
        match offset.checked_add(len) {
            None => {
                return corrupt("DEVONPACK frame end overflows u64");
            },
            Some(stop) => {
                if offset < (end + 4) as u64 || stop > size as u64 {
                    return corrupt("DEVONPACK frame lies outside the container");
                }
            },
        }
        at += PACK_ENTRY_BYTES;
    }
    corrupt("DEVONPACK frame lies outside the container")
}

/// The statistics of a container.
pub fn collect_pack(data: &Vec<u8>, memory_limit: usize) -> (result: Result<
    StorageStats,
    StatsError,
>)
    ensures
        match (result, pack_stats(data@, memory_limit as nat)) {
            (Ok(stats), Ok(want)) => stats@ == want,
            (Err(error), Err(kind)) => error.kind_of() == kind,
            _ => false,
        },
{
    let mut budget = MemoryBudget::new(memory_limit);
    match charge(&mut budget, PACK_HEADER_BYTES, "DEVONPACK header") {
        Ok(()) => {},
        Err(error) => {
            return Err(error);
        },
    }
    match check_header(data) {
        Ok(()) => {},
        Err(_) => {
            return Err(header_fault(data));
        },
    }
    proof {
        bytes::lemma_radix_values();
    }
    let page_count: u64 = get_le(data.as_slice(), 16, 8);
    let frame_pages: u32 = get_le(data.as_slice(), 24, 4) as u32;
    let frame_count: u64 = get_le(data.as_slice(), 28, 8);
    match check_frame_count(page_count, frame_pages, frame_count) {
        Ok(()) => {},
        Err(_) => {
            if frame_pages == 0 {
                return Err(corrupt("DEVONPACK frame_pages is zero"));
            }
            return Err(corrupt("DEVONPACK page_count and frame_count disagree"));
        },
    }
    let directory: u128 = frame_count as u128 * PACK_ENTRY_BYTES as u128;
    if directory > usize::MAX as u128 {
        return Err(corrupt("DEVONPACK directory length overflows usize"));
    }
    match charge(&mut budget, directory as usize, "DEVONPACK frame directory") {
        Ok(()) => {},
        Err(error) => {
            return Err(error);
        },
    }
    let (page_size, page_count, _, _): (u32, u64, u32, Vec<FrameEntry>) = match check_container(
        data,
    ) {
        Ok(found) => found,
        Err(_) => {
            return Err(directory_fault(data, directory as usize));
        },
    };
    let logical: u64 = match page_count.checked_mul(page_size as u64) {
        Some(logical) => logical,
        None => {
            return Err(corrupt("DEVONPACK logical byte length overflows u64"));
        },
    };
    Ok(
        StorageStats {
            kind: StorageKind::Pack,
            file_bytes: data.len() as u64,
            page_size: None,
            pages: None,
            node_tables: None,
            rel_tables: None,
            wal_bytes: None,
            feature_bits: None,
            free_ledger: FreeLedgerStatus::NotApplicable,
            pack_logical_bytes: Some(logical),
            pack_logical_pages: Some(page_count),
        },
    )
}

/// The pages of a file and how many each table has.
#[verifier::ext_equal]
pub struct Shares {
    pub classes: Seq<PageClass>,
    pub counts: Map<Seq<char>, u64>,
}

/// No table among the first `n` has pages.
pub open spec fn no_pages(entries: Seq<(Seq<char>, TableDefinition)>, n: nat) -> Map<
    Seq<char>,
    u64,
>
    decreases n,
{
    if n == 0 {
        Map::empty()
    } else {
        no_pages(entries, (n - 1) as nat).insert(entries[n - 1].1.name@, 0)
    }
}

fn zero_table_counts(definitions: &NameMap<TableDefinition>) -> (counts: NameMap<u64>)
    requires
        definitions.wf(),
    ensures
        counts.wf(),
        counts@ == no_pages(definitions.entries(), definitions.entries().len()),
{
    let total: usize = definitions.len();
    let mut counts: NameMap<u64> = NameMap::new();
    let mut i: usize = 0;
    while i < total
        invariant
            i <= total == definitions.entries().len(),
            definitions.wf(),
            counts.wf(),
            counts@ == no_pages(definitions.entries(), i as nat),
        decreases total - i,
    {
        counts.insert(definitions.item_at(i).name.clone(), 0);
        i += 1;
    }
    counts
}

/// The bytes charged for the first `n` tables.
pub open spec fn tables_bytes(entries: Seq<(Seq<char>, TableDefinition)>, n: nat) -> nat
    decreases n,
{
    if n == 0 {
        0
    } else {
        tables_bytes(entries, (n - 1) as nat) + TABLE_BYTES as nat + vstd::utf8::encode_utf8(
            entries[n - 1].1.name@,
        ).len()
    }
}

proof fn lemma_tables_bytes(entries: Seq<(Seq<char>, TableDefinition)>, at: nat, n: nat)
    requires
        at <= n,
    ensures
        tables_bytes(entries, at) <= tables_bytes(entries, n),
    decreases n,
{
    if at < n {
        lemma_tables_bytes(entries, at, (n - 1) as nat);
    }
}

fn weigh_tables(definitions: &NameMap<TableDefinition>, before: usize) -> (bytes: Option<usize>)
    requires
        definitions.wf(),
    ensures
        match bytes {
            Some(bytes) => bytes == before + tables_bytes(
                definitions.entries(),
                definitions.entries().len(),
            ),
            None => before + tables_bytes(definitions.entries(), definitions.entries().len())
                > usize::MAX,
        },
{
    let total: usize = definitions.len();
    let mut bytes: usize = before;
    let mut i: usize = 0;
    while i < total
        invariant
            i <= total == definitions.entries().len(),
            definitions.wf(),
            bytes == before + tables_bytes(definitions.entries(), i as nat),
        decreases total - i,
    {
        let name: usize = text_len(definitions.item_at(i).name.as_str());
        proof {
            lemma_tables_bytes(definitions.entries(), i as nat + 1, total as nat);
        }
        bytes = match bytes.checked_add(TABLE_BYTES) {
            Some(more) => match more.checked_add(name) {
                Some(more) => more,
                None => {
                    return None;
                },
            },
            None => {
                return None;
            },
        };
        i += 1;
    }
    Some(bytes)
}

/// The shares once the groups of a list from one on are counted for a table.
pub open spec fn groups_taken(
    scene: Scene,
    before: Shares,
    name: Seq<char>,
    layout: GroupLayout,
    roots: Seq<u64>,
    from: nat,
) -> Option<Shares>
    decreases roots.len() - from,
{
    if from >= roots.len() {
        Some(before)
    } else if !layout.nodes && roots[from as int] == 0 {
        groups_taken(scene, before, name, layout, roots, from + 1)
    } else if !before.counts.contains_key(name) {
        None
    } else {
        match accounting::group_taken(
            scene,
            Progress { classes: before.classes, pages: before.counts[name] as nat },
            roots[from as int] as nat,
            layout,
        ) {
            Some(after) => groups_taken(
                scene,
                Shares {
                    classes: after.classes,
                    counts: before.counts.insert(name, after.pages as u64),
                },
                name,
                layout,
                roots,
                from + 1,
            ),
            None => None,
        }
    }
}

fn account_groups(
    image: &Vec<u8>,
    roots: &Vec<u64>,
    name: &String,
    layout: GroupLayout,
    accounting: &mut Accounting,
    counts: &mut NameMap<u64>,
    Ghost(scene): Ghost<Scene>,
) -> (result: Result<(), StatsError>)
    requires
        scene.image == image@,
        accounting::fits(*old(accounting), scene),
        old(counts).wf(),
    ensures
        accounting::fits(*final(accounting), scene),
        final(counts).wf(),
        match (
            result,
            groups_taken(
                scene,
                Shares { classes: old(accounting).classes@, counts: old(counts)@ },
                name@,
                layout,
                roots@,
                0,
            ),
        ) {
            (Ok(()), Some(after)) => after == (Shares {
                classes: final(accounting).classes@,
                counts: final(counts)@,
            }),
            (Err(error), None) => error.kind_of() == ErrorKind::Corrupt,
            _ => false,
        },
{
    let ghost want = groups_taken(
        scene,
        Shares { classes: accounting.classes@, counts: counts@ },
        name@,
        layout,
        roots@,
        0,
    );
    let mut i: usize = 0;
    while i < roots.len()
        invariant
            i <= roots@.len(),
            scene.image == image@,
            accounting::fits(*accounting, scene),
            counts.wf(),
            want == groups_taken(
                scene,
                Shares { classes: old(accounting).classes@, counts: old(counts)@ },
                name@,
                layout,
                roots@,
                0,
            ),
            want == groups_taken(
                scene,
                Shares { classes: accounting.classes@, counts: counts@ },
                name@,
                layout,
                roots@,
                i as nat,
            ),
        decreases roots@.len() - i,
    {
        let root: u64 = roots[i];
        if layout.nodes || root != 0 {
            let pages: u64 = match counts.get(name.as_str()) {
                Some(pages) => *pages,
                None => {
                    return Err(
                        corrupt(
                            with_name(
                                "missing accounting slot for table `",
                                name.as_str(),
                                "`",
                            ).as_str(),
                        ),
                    );
                },
            };
            match account_group(image, root, layout, accounting, pages, Ghost(scene)) {
                Ok(more) => {
                    counts.insert(name.clone(), more);
                },
                Err(error) => {
                    return Err(error);
                },
            }
        }
        i += 1;
    }
    Ok(())
}

/// The shares once the node tables from one on are counted.
pub open spec fn nodes_taken(
    scene: Scene,
    before: Shares,
    entries: Seq<(Seq<char>, TableDefinition)>,
    storage: Map<Seq<char>, StorageRoots>,
    from: nat,
) -> Option<Shares>
    decreases entries.len() - from,
{
    if from >= entries.len() {
        Some(before)
    } else {
        let (folded, definition) = entries[from as int];
        let columns = definition.column_count;
        if !storage.contains_key(folded) {
            nodes_taken(scene, before, entries, storage, from + 1)
        } else if columns + definition.rescore_count > usize::MAX {
            None
        } else {
            match groups_taken(
                scene,
                before,
                definition.name@,
                GroupLayout {
                    columns,
                    entries: (columns + definition.rescore_count) as usize,
                    nodes: true,
                },
                storage[folded].groups@,
                0,
            ) {
                Some(after) => nodes_taken(scene, after, entries, storage, from + 1),
                None => None,
            }
        }
    }
}

fn account_node_tables(
    image: &Vec<u8>,
    facts: &CatalogFacts,
    accounting: &mut Accounting,
    Ghost(scene): Ghost<Scene>,
) -> (result: Result<NameMap<u64>, StatsError>)
    requires
        scene.image == image@,
        accounting::fits(*old(accounting), scene),
        facts.wf(),
    ensures
        accounting::fits(*final(accounting), scene),
        match (
            result,
            nodes_taken(
                scene,
                Shares {
                    classes: old(accounting).classes@,
                    counts: no_pages(facts.nodes.entries(), facts.nodes.entries().len()),
                },
                facts.nodes.entries(),
                facts.storage@,
                0,
            ),
        ) {
            (Ok(counts), Some(after)) => counts.wf() && after == (Shares {
                classes: final(accounting).classes@,
                counts: counts@,
            }),
            (Err(error), None) => error.kind_of() == ErrorKind::Corrupt,
            _ => false,
        },
{
    let mut counts: NameMap<u64> = zero_table_counts(&facts.nodes);
    let ghost entries = facts.nodes.entries();
    let ghost want = nodes_taken(
        scene,
        Shares { classes: accounting.classes@, counts: counts@ },
        entries,
        facts.storage@,
        0,
    );
    let total: usize = facts.nodes.len();
    let mut i: usize = 0;
    while i < total
        invariant
            i <= total == entries.len(),
            entries == facts.nodes.entries(),
            facts.wf(),
            scene.image == image@,
            accounting::fits(*accounting, scene),
            counts.wf(),
            want == nodes_taken(
                scene,
                Shares {
                    classes: old(accounting).classes@,
                    counts: no_pages(facts.nodes.entries(), facts.nodes.entries().len()),
                },
                entries,
                facts.storage@,
                0,
            ),
            want == nodes_taken(
                scene,
                Shares { classes: accounting.classes@, counts: counts@ },
                entries,
                facts.storage@,
                i as nat,
            ),
        decreases total - i,
    {
        let definition: &TableDefinition = facts.nodes.item_at(i);
        match facts.storage.get(facts.nodes.name_at(i)) {
            Some(roots) => {
                let entry_count: usize = match definition.column_count.checked_add(
                    definition.rescore_count,
                ) {
                    Some(entry_count) => entry_count,
                    None => {
                        return Err(corrupt("directory entry length overflows"));
                    },
                };
                let layout = GroupLayout {
                    columns: definition.column_count,
                    entries: entry_count,
                    nodes: true,
                };
                match account_groups(
                    image,
                    &roots.groups,
                    &definition.name,
                    layout,
                    accounting,
                    &mut counts,
                    Ghost(scene),
                ) {
                    Ok(()) => {},
                    Err(error) => {
                        return Err(error);
                    },
                }
            },
            None => {},
        }
        i += 1;
    }
    Ok(counts)
}

/// The shares once the relationship tables from one on are counted.
pub open spec fn relationships_taken(
    scene: Scene,
    before: Shares,
    entries: Seq<(Seq<char>, TableDefinition)>,
    storage: Map<Seq<char>, StorageRoots>,
    from: nat,
) -> Option<Shares>
    decreases entries.len() - from,
{
    if from >= entries.len() {
        Some(before)
    } else {
        let (folded, definition) = entries[from as int];
        let columns = definition.column_count;
        let layout = GroupLayout { columns, entries: (columns + 2) as usize, nodes: false };
        if !storage.contains_key(folded) {
            relationships_taken(scene, before, entries, storage, from + 1)
        } else if columns + 2 > usize::MAX {
            None
        } else {
            match groups_taken(
                scene,
                before,
                definition.name@,
                layout,
                storage[folded].forward@,
                0,
            ) {
                Some(middle) => match groups_taken(
                    scene,
                    middle,
                    definition.name@,
                    layout,
                    storage[folded].backward@,
                    0,
                ) {
                    Some(after) => relationships_taken(scene, after, entries, storage, from + 1),
                    None => None,
                },
                None => None,
            }
        }
    }
}

fn account_rel_tables(
    image: &Vec<u8>,
    facts: &CatalogFacts,
    accounting: &mut Accounting,
    Ghost(scene): Ghost<Scene>,
) -> (result: Result<NameMap<u64>, StatsError>)
    requires
        scene.image == image@,
        accounting::fits(*old(accounting), scene),
        facts.wf(),
    ensures
        accounting::fits(*final(accounting), scene),
        match (
            result,
            relationships_taken(
                scene,
                Shares {
                    classes: old(accounting).classes@,
                    counts: no_pages(
                        facts.relationships.entries(),
                        facts.relationships.entries().len(),
                    ),
                },
                facts.relationships.entries(),
                facts.storage@,
                0,
            ),
        ) {
            (Ok(counts), Some(after)) => counts.wf() && after == (Shares {
                classes: final(accounting).classes@,
                counts: counts@,
            }),
            (Err(error), None) => error.kind_of() == ErrorKind::Corrupt,
            _ => false,
        },
{
    let mut counts: NameMap<u64> = zero_table_counts(&facts.relationships);
    let ghost entries = facts.relationships.entries();
    let ghost want = relationships_taken(
        scene,
        Shares { classes: accounting.classes@, counts: counts@ },
        entries,
        facts.storage@,
        0,
    );
    let total: usize = facts.relationships.len();
    let mut i: usize = 0;
    while i < total
        invariant
            i <= total == entries.len(),
            entries == facts.relationships.entries(),
            facts.wf(),
            scene.image == image@,
            accounting::fits(*accounting, scene),
            counts.wf(),
            want == relationships_taken(
                scene,
                Shares {
                    classes: old(accounting).classes@,
                    counts: no_pages(
                        facts.relationships.entries(),
                        facts.relationships.entries().len(),
                    ),
                },
                entries,
                facts.storage@,
                0,
            ),
            want == relationships_taken(
                scene,
                Shares { classes: accounting.classes@, counts: counts@ },
                entries,
                facts.storage@,
                i as nat,
            ),
        decreases total - i,
    {
        let definition: &TableDefinition = facts.relationships.item_at(i);
        match facts.storage.get(facts.relationships.name_at(i)) {
            Some(roots) => {
                let entry_count: usize = match definition.column_count.checked_add(2) {
                    Some(entry_count) => entry_count,
                    None => {
                        return Err(corrupt("directory entry length overflows"));
                    },
                };
                let layout = GroupLayout {
                    columns: definition.column_count,
                    entries: entry_count,
                    nodes: false,
                };
                match account_groups(
                    image,
                    &roots.forward,
                    &definition.name,
                    layout,
                    accounting,
                    &mut counts,
                    Ghost(scene),
                ) {
                    Ok(()) => {},
                    Err(error) => {
                        return Err(error);
                    },
                }
                match account_groups(
                    image,
                    &roots.backward,
                    &definition.name,
                    layout,
                    accounting,
                    &mut counts,
                    Ghost(scene),
                ) {
                    Ok(()) => {},
                    Err(error) => {
                        return Err(error);
                    },
                }
            },
            None => {},
        }
        i += 1;
    }
    Ok(counts)
}

/// The shares once the indexes from one on are counted for their tables.
pub open spec fn indexes_taken(
    scene: Scene,
    before: Shares,
    nodes: Map<Seq<char>, TableDefinition>,
    indexes: Seq<IndexRoot>,
    charged: nat,
    from: nat,
) -> Result<Shares, ErrorKind>
    decreases indexes.len() - from,
{
    if from >= indexes.len() {
        Ok(before)
    } else {
        let index = indexes[from as int];
        let folded = text::folded(index.table@);
        let name = nodes[folded].name@;
        if !nodes.contains_key(folded) || !before.counts.contains_key(name) {
            Err(ErrorKind::Corrupt)
        } else {
            match reader::index_taken(
                scene,
                Progress { classes: before.classes, pages: before.counts[name] as nat },
                index.root as nat,
                charged,
            ) {
                Ok(after) => indexes_taken(
                    scene,
                    Shares {
                        classes: after.classes,
                        counts: before.counts.insert(name, after.pages as u64),
                    },
                    nodes,
                    indexes,
                    charged,
                    from + 1,
                ),
                Err(kind) => Err(kind),
            }
        }
    }
}

fn account_indexes(
    image: &Vec<u8>,
    facts: &CatalogFacts,
    accounting: &mut Accounting,
    budget: &mut MemoryBudget,
    counts: &mut NameMap<u64>,
    Ghost(scene): Ghost<Scene>,
) -> (result: Result<(), StatsError>)
    requires
        scene.image == image@,
        scene.limit == old(budget).limit_of(),
        accounting::fits(*old(accounting), scene),
        old(counts).wf(),
        facts.wf(),
    ensures
        accounting::fits(*final(accounting), scene),
        final(counts).wf(),
        final(budget).limit_of() == old(budget).limit_of(),
        match (
            result,
            indexes_taken(
                scene,
                Shares { classes: old(accounting).classes@, counts: old(counts)@ },
                facts.nodes@,
                facts.indexes@,
                old(budget).charged_of(),
                0,
            ),
        ) {
            (Ok(()), Ok(after)) => after == (Shares {
                classes: final(accounting).classes@,
                counts: final(counts)@,
            }) && final(budget).charged_of() == old(budget).charged_of(),
            (Err(error), Err(kind)) => error.kind_of() == kind,
            _ => false,
        },
{
    let ghost charged = budget.charged_of();
    let ghost want = indexes_taken(
        scene,
        Shares { classes: accounting.classes@, counts: counts@ },
        facts.nodes@,
        facts.indexes@,
        charged,
        0,
    );
    let mut i: usize = 0;
    while i < facts.indexes.len()
        invariant
            i <= facts.indexes@.len(),
            facts.wf(),
            scene.image == image@,
            scene.limit == budget.limit_of(),
            budget.limit_of() == old(budget).limit_of(),
            charged == old(budget).charged_of(),
            budget.charged_of() == charged,
            accounting::fits(*accounting, scene),
            counts.wf(),
            want == indexes_taken(
                scene,
                Shares { classes: old(accounting).classes@, counts: old(counts)@ },
                facts.nodes@,
                facts.indexes@,
                charged,
                0,
            ),
            want == indexes_taken(
                scene,
                Shares { classes: accounting.classes@, counts: counts@ },
                facts.nodes@,
                facts.indexes@,
                charged,
                i as nat,
            ),
        decreases facts.indexes@.len() - i,
    {
        let index: &IndexRoot = &facts.indexes[i];
        let folded: String = fold(index.table.as_str());
        let definition: &TableDefinition = match facts.nodes.get(folded.as_str()) {
            Some(definition) => definition,
            None => {
                return Err(corrupt("index names an unknown node table"));
            },
        };
        let pages: u64 = match counts.get(definition.name.as_str()) {
            Some(pages) => *pages,
            None => {
                return Err(
                    corrupt(
                        with_name(
                            "missing accounting slot for table `",
                            definition.name.as_str(),
                            "`",
                        ).as_str(),
                    ),
                );
            },
        };
        match account_one_index(image, index.root, accounting, budget, pages, Ghost(scene)) {
            Ok(more) => {
                counts.insert(definition.name.clone(), more);
            },
            Err(error) => {
                return Err(error);
            },
        }
        i += 1;
    }
    Ok(())
}

/// Whether rows report the pages of tables: each table once, in the order of
/// the names' bytes.
pub open spec fn reports(
    rows: Seq<TableView>,
    counts: Map<Seq<char>, u64>,
    page_size: u32,
) -> bool {
    &&& order::ascending(rows.map_values(|row: TableView| vstd::utf8::encode_utf8(row.name)))
    &&& forall|i: int|
        0 <= i < rows.len() ==> counts.contains_key((#[trigger] rows[i]).name) && rows[i].pages
            == counts[rows[i].name] && rows[i].bytes == saturating::capped(
            rows[i].pages as nat * page_size as nat,
        )
    &&& forall|name: Seq<char>| #[trigger]
        counts.contains_key(name) ==> exists|i: int|
            0 <= i < rows.len() && (#[trigger] rows[i]).name == name
}

fn finish_tables(counts: &NameMap<u64>, page_size: u32) -> (rows: Vec<TableBytes>)
    requires
        counts.wf(),
    ensures
        reports(crate::stats::tables_of(rows@), counts@, page_size),
{
    let total: usize = counts.len();
    let ghost entries = counts.entries();
    let mut rows: Vec<TableBytes> = Vec::new();
    let mut i: usize = 0;
    while i < total
        invariant
            i <= total == entries.len(),
            entries == counts.entries(),
            counts.wf(),
            rows@.len() == i,
            forall|k: int|
                0 <= k < i ==> (#[trigger] rows@[k])@ == (TableView {
                    name: entries[k].0,
                    pages: entries[k].1,
                    bytes: saturating::capped(entries[k].1 as nat * page_size as nat) as u64,
                }),
        decreases total - i,
    {
        let pages: u64 = *counts.item_at(i);
        let bytes: u64 = times(pages, page_size as u64);
        rows.push(TableBytes { name: counts.name_at(i).to_owned(), pages, bytes });
        i += 1;
    }
    proof {
        let shown = crate::stats::tables_of(rows@);
        counts.lemma_ordered();
        assert(shown.map_values(|row: TableView| vstd::utf8::encode_utf8(row.name))
            =~= names::name_bytes(entries));
        assert forall|k: int| 0 <= k < shown.len() implies counts@.contains_key(
            (#[trigger] shown[k]).name,
        ) && shown[k].pages == counts@[shown[k].name] && shown[k].bytes == saturating::capped(
            shown[k].pages as nat * page_size as nat,
        ) by {
            counts.lemma_place(k);
            assert(shown[k] == rows@[k]@);
        }
        assert forall|name: Seq<char>| #[trigger] counts@.contains_key(name) implies exists|k: int|
            0 <= k < shown.len() && (#[trigger] shown[k]).name == name by {
            let k = names::name_place(entries, name);
            assert(names::has_name(entries, name));
            assert(shown[k] == rows@[k]@);
            assert(shown[k].name == name);
        }
    }
    rows
}

/// What is known of a file before its tables are counted: its superblock,
/// the pages that are not of tables, the bytes charged, the catalog and the
/// state of the ledger.
pub struct Opened {
    pub head: Head,
    pub classes: Seq<PageClass>,
    pub charged: nat,
    pub facts: FactsView,
    pub ledger: FreeLedgerStatus,
}

/// The pages of a file of which only the superblocks are known.
pub open spec fn first_classes(count: nat) -> Seq<PageClass> {
    Seq::new(
        count,
        |i: int|
            if i < 2 {
                PageClass::Superblock
            } else {
                PageClass::Unknown
            },
    )
}

/// What a file's catalog says, with the pages that it has and the bytes
/// charged.
pub open spec fn catalog_found(scene: Scene, head: Head, classes: Seq<PageClass>, charged: nat) -> Result<
    (Seq<PageClass>, FactsView, nat),
    ErrorKind,
> {
    if head.catalog_root == 0 {
        Ok((classes, FactsView::none(), charged))
    } else {
        match reader::catalog_payload(scene, head, classes, charged) {
            Err(kind) => Err(kind),
            Ok((after, payload, held)) => if held + payload.len() > scene.limit {
                Err(ErrorKind::BudgetExceeded)
            } else {
                match facts::facts_of(payload) {
                    Some(found) => Ok((after, found, held)),
                    None => Err(ErrorKind::Corrupt),
                }
            },
        }
    }
}

/// What is known of a file before its tables are counted.
pub open spec fn opened(image: Seq<u8>, limit: nat) -> Result<Opened, ErrorKind> {
    match reader::selected(image) {
        None => Err(ErrorKind::Corrupt),
        Some((head, slot)) => {
            let size = head.page_size as nat;
            let scene = Scene { image, page_size: size, limit };
            let count = image.len() / size;
            if image.len() < 2 * size || image.len() % size != 0 {
                Err(ErrorKind::Corrupt)
            } else if 2 * size + count > limit {
                Err(ErrorKind::BudgetExceeded)
            } else {
                match catalog_found(scene, head, first_classes(count), 2 * size + count) {
                    Err(kind) => Err(kind),
                    Ok((classes, facts, charged)) => match reader::ledger_found(
                        scene,
                        head,
                        slot,
                        classes,
                        charged,
                    ) {
                        Err(kind) => Err(kind),
                        Ok((classes, ledger)) => Ok(
                            Opened { head, classes, charged, facts, ledger },
                        ),
                    },
                }
            }
        },
    }
}

/// The pages of a file and of its tables.
pub struct Surveyed {
    pub classes: Seq<PageClass>,
    pub nodes: Map<Seq<char>, u64>,
    pub relationships: Map<Seq<char>, u64>,
}

/// The pages of a file and of its tables, those of the tables counted in the
/// order of their folded names.
pub open spec fn surveyed(scene: Scene, opened: Opened, facts: CatalogFacts) -> Result<
    Surveyed,
    ErrorKind,
> {
    let nodes = facts.nodes.entries();
    let relationships = facts.relationships.entries();
    let weight = tables_bytes(nodes, nodes.len()) + tables_bytes(
        relationships,
        relationships.len(),
    );
    if weight > usize::MAX {
        Err(ErrorKind::Corrupt)
    } else if opened.charged + weight > scene.limit {
        Err(ErrorKind::BudgetExceeded)
    } else {
        match nodes_taken(
            scene,
            Shares { classes: opened.classes, counts: no_pages(nodes, nodes.len()) },
            nodes,
            facts.storage@,
            0,
        ) {
            None => Err(ErrorKind::Corrupt),
            Some(first) => match relationships_taken(
                scene,
                Shares {
                    classes: first.classes,
                    counts: no_pages(relationships, relationships.len()),
                },
                relationships,
                facts.storage@,
                0,
            ) {
                None => Err(ErrorKind::Corrupt),
                Some(second) => match indexes_taken(
                    scene,
                    Shares { classes: second.classes, counts: first.counts },
                    facts.nodes@,
                    facts.indexes@,
                    opened.charged + weight,
                    0,
                ) {
                    Err(kind) => Err(kind),
                    Ok(last) => if opened.charged + weight + FEATURE_NAMES_BYTES > scene.limit {
                        Err(ErrorKind::BudgetExceeded)
                    } else {
                        Ok(
                            Surveyed {
                                classes: last.classes,
                                nodes: last.counts,
                                relationships: second.counts,
                            },
                        )
                    },
                },
            },
        }
    }
}

/// Whether statistics are those of a file.
pub open spec fn tells(
    stats: StatsView,
    image: Seq<u8>,
    wal_bytes: u64,
    opened: Opened,
    survey: Surveyed,
) -> bool {
    &&& stats.kind == StorageKind::Database
    &&& stats.file_bytes == image.len()
    &&& stats.page_size == Some(opened.head.page_size)
    &&& stats.pages == Some(accounting::counts_of(survey.classes))
    &&& stats.node_tables matches Some(rows) && reports(rows, survey.nodes, opened.head.page_size)
    &&& stats.rel_tables matches Some(rows) && reports(
        rows,
        survey.relationships,
        opened.head.page_size,
    )
    &&& stats.wal_bytes == Some(wal_bytes)
    &&& stats.feature_bits == Some(features_among(opened.head.feature_flags, 64))
    &&& stats.free_ledger == opened.ledger
    &&& stats.pack_logical_bytes is None
    &&& stats.pack_logical_pages is None
}

/// Whether a result is that of surveying a file whose catalog is `facts`.
pub open spec fn survey_holds(
    result: Result<StorageStats, StatsError>,
    image: Seq<u8>,
    limit: nat,
    wal_bytes: u64,
    opened: Opened,
    facts: CatalogFacts,
) -> bool {
    let scene = Scene { image, page_size: opened.head.page_size as nat, limit };
    &&& facts.wf()
    &&& facts@ == opened.facts
    &&& match (result, surveyed(scene, opened, facts)) {
        (Ok(stats), Ok(survey)) => tells(stats@, image, wal_bytes, opened, survey),
        (Err(error), Err(kind)) => error.kind_of() == kind,
        _ => false,
    }
}

/// Whether a result is that of looking at a database file.
pub open spec fn database_holds(
    result: Result<StorageStats, StatsError>,
    image: Seq<u8>,
    limit: nat,
    wal_bytes: u64,
) -> bool {
    match opened(image, limit) {
        Err(kind) => result matches Err(error) && error.kind_of() == kind,
        Ok(opened) => exists|facts: CatalogFacts| #[trigger]
            survey_holds(result, image, limit, wal_bytes, opened, facts),
    }
}

fn find_catalog(
    image: &Vec<u8>,
    head: Head,
    accounting: &mut Accounting,
    budget: &mut MemoryBudget,
    Ghost(scene): Ghost<Scene>,
) -> (result: Result<CatalogFacts, StatsError>)
    requires
        scene.image == image@,
        scene.limit == old(budget).limit_of(),
        accounting::fits(*old(accounting), scene),
    ensures
        accounting::fits(*final(accounting), scene),
        final(budget).limit_of() == old(budget).limit_of(),
        match (
            result,
            catalog_found(scene, head, old(accounting).classes@, old(budget).charged_of()),
        ) {
            (Ok(facts), Ok((classes, want, charged))) => facts.wf() && facts@ == want && classes
                == final(accounting).classes@ && charged == final(budget).charged_of(),
            (Err(error), Err(kind)) => error.kind_of() == kind,
            _ => false,
        },
{
    if head.catalog_root == 0 {
        return Ok(CatalogFacts::new());
    }
    let payload: Vec<u8> = match load_catalog(image, head, accounting, budget, Ghost(scene)) {
        Ok(payload) => payload,
        Err(error) => {
            return Err(error);
        },
    };
    match charge(budget, payload.len(), "parsed catalog accounting") {
        Ok(()) => {},
        Err(error) => {
            return Err(error);
        },
    }
    let parsed: Result<CatalogFacts, StatsError> = parse_catalog(payload.as_slice());
    budget.release(payload.len());
    parsed
}

fn survey_tables(
    image: &Vec<u8>,
    wal_bytes: u64,
    head: Head,
    ledger: FreeLedgerStatus,
    facts: &CatalogFacts,
    accounting: &mut Accounting,
    budget: &mut MemoryBudget,
    Ghost(opened): Ghost<Opened>,
) -> (result: Result<StorageStats, StatsError>)
    requires
        opened.head == head,
        opened.ledger == ledger,
        opened.facts == facts@,
        opened.classes == old(accounting).classes@,
        opened.charged == old(budget).charged_of(),
        accounting::fits(
            *old(accounting),
            Scene {
                image: image@,
                page_size: head.page_size as nat,
                limit: old(budget).limit_of(),
            },
        ),
        facts.wf(),
    ensures
        survey_holds(result, image@, old(budget).limit_of(), wal_bytes, opened, *facts),
{
    let ghost scene = Scene {
        image: image@,
        page_size: head.page_size as nat,
        limit: budget.limit_of(),
    };
    let first: usize = match weigh_tables(&facts.nodes, 0) {
        Some(first) => first,
        None => {
            return Err(corrupt("per-table accounting size overflows usize"));
        },
    };
    let weight: usize = match weigh_tables(&facts.relationships, first) {
        Some(weight) => weight,
        None => {
            return Err(corrupt("per-table accounting size overflows usize"));
        },
    };
    match charge(budget, weight, "per-table accounting") {
        Ok(()) => {},
        Err(error) => {
            return Err(error);
        },
    }
    let mut nodes: NameMap<u64> = match account_node_tables(
        image,
        facts,
        accounting,
        Ghost(scene),
    ) {
        Ok(nodes) => nodes,
        Err(error) => {
            return Err(error);
        },
    };
    let relationships: NameMap<u64> = match account_rel_tables(
        image,
        facts,
        accounting,
        Ghost(scene),
    ) {
        Ok(relationships) => relationships,
        Err(error) => {
            return Err(error);
        },
    };
    match account_indexes(image, facts, accounting, budget, &mut nodes, Ghost(scene)) {
        Ok(()) => {},
        Err(error) => {
            return Err(error);
        },
    }
    let pages: PageCounts = accounting.counts();
    match charge(budget, FEATURE_NAMES_BYTES, "feature-bit names") {
        Ok(()) => {},
        Err(error) => {
            return Err(error);
        },
    }
    Ok(
        StorageStats {
            kind: StorageKind::Database,
            file_bytes: image.len() as u64,
            page_size: Some(head.page_size),
            pages: Some(pages),
            node_tables: Some(finish_tables(&nodes, head.page_size)),
            rel_tables: Some(finish_tables(&relationships, head.page_size)),
            wal_bytes: Some(wal_bytes),
            feature_bits: Some(feature_names(head.feature_flags)),
            free_ledger: ledger,
            pack_logical_bytes: None,
            pack_logical_pages: None,
        },
    )
}

fn mark_superblocks(count: usize, page_size: u32) -> (result: Result<Accounting, StatsError>)
    requires
        count >= 2,
    ensures
        result matches Ok(accounting) && accounting.page_size == page_size
            && accounting.classes@ == first_classes(count as nat),
{
    let mut accounting = Accounting::new(count, page_size);
    match accounting.mark(0, PageClass::Superblock, "superblock slot 0") {
        Ok(()) => {},
        Err(error) => {
            return Err(error);
        },
    }
    match accounting.mark(1, PageClass::Superblock, "superblock slot 1") {
        Ok(()) => {},
        Err(error) => {
            return Err(error);
        },
    }
    assert(accounting.classes@ =~= first_classes(count as nat));
    Ok(accounting)
}

/// The statistics of a database file, with the bytes of its log.
pub fn collect_database(image: &Vec<u8>, memory_limit: usize, wal_bytes: u64) -> (result: Result<
    StorageStats,
    StatsError,
>)
    ensures
        database_holds(result, image@, memory_limit as nat, wal_bytes),
{
    let mut budget = MemoryBudget::new(memory_limit);
    let (head, slot): (Head, u64) = match select_superblock(image) {
        Ok(found) => found,
        Err(error) => {
            return Err(error);
        },
    };
    let size: usize = head.page_size as usize;
    let total: usize = image.len();
    if total < 2 * size || total % size != 0 {
        return Err(corrupt("main-file length is not a whole number of pages"));
    }
    match charge(&mut budget, 2 * size, "two-page inspection scratch") {
        Ok(()) => {},
        Err(error) => {
            return Err(error);
        },
    }
    let count: usize = total / size;
    match charge(&mut budget, count, "page-accounting map") {
        Ok(()) => {},
        Err(error) => {
            return Err(error);
        },
    }
    let ghost scene = Scene {
        image: image@,
        page_size: head.page_size as nat,
        limit: memory_limit as nat,
    };
    proof {
        vstd::arithmetic::div_mod::lemma_fundamental_div_mod(total as int, size as int);
        assert(count >= 2) by (nonlinear_arith)
            requires
                total >= 2 * size,
                total == size * (total as int / size as int) + total as int % size as int,
                total as int % size as int == 0,
                count == total as int / size as int,
                size > 0,
        ;
    }
    let mut accounting: Accounting = match mark_superblocks(count, head.page_size) {
        Ok(accounting) => accounting,
        Err(error) => {
            return Err(error);
        },
    };
    let facts: CatalogFacts = match find_catalog(
        image,
        head,
        &mut accounting,
        &mut budget,
        Ghost(scene),
    ) {
        Ok(facts) => facts,
        Err(error) => {
            return Err(error);
        },
    };
    let ledger: FreeLedgerStatus = match account_free_ledger(
        image,
        head,
        slot,
        &mut accounting,
        &mut budget,
        Ghost(scene),
    ) {
        Ok(ledger) => ledger,
        Err(error) => {
            return Err(error);
        },
    };
    let ghost known = opened(image@, memory_limit as nat)->Ok_0;
    let result: Result<StorageStats, StatsError> = survey_tables(
        image,
        wal_bytes,
        head,
        ledger,
        &facts,
        &mut accounting,
        &mut budget,
        Ghost(known),
    );
    assert(survey_holds(result, image@, memory_limit as nat, wal_bytes, known, facts));
    result
}

/// Whether bytes begin as a container's do.
pub open spec fn is_pack(image: Seq<u8>) -> bool {
    image.subrange(0, 9) == pack::magic()
}

/// How many of a file's first bytes hold every place where a superblock may
/// stand.
pub const HEADS_BYTES: usize = 65600;

/// Whether the first bytes of a file and its length are enough to see that
/// looking into it takes more memory than it may.
pub open spec fn refused_early(prefix: Seq<u8>, file_bytes: nat, limit: nat) -> bool {
    if prefix.len() < 9 {
        false
    } else if is_pack(prefix) {
        PACK_HEADER_BYTES > limit
    } else {
        match reader::selected(prefix) {
            None => false,
            Some((head, _)) => {
                let size = head.page_size as nat;
                file_bytes >= 2 * size && file_bytes % size == 0 && 2 * size + file_bytes / size
                    > limit
            },
        }
    }
}

/// Refuses a file by its first bytes and its length, before the rest of it is
/// read.
pub fn check_limit(prefix: &Vec<u8>, file_bytes: u64, memory_limit: usize) -> (result: Result<
    (),
    StatsError,
>)
    ensures
        match result {
            Ok(()) => !refused_early(prefix@, file_bytes as nat, memory_limit as nat),
            Err(error) => refused_early(prefix@, file_bytes as nat, memory_limit as nat)
                && error.kind_of() == ErrorKind::BudgetExceeded,
        },
{
    let mut budget = MemoryBudget::new(memory_limit);
    if prefix.len() < 9 {
        return Ok(());
    }
    if pack::has_magic(prefix) {
        return charge(&mut budget, PACK_HEADER_BYTES, "DEVONPACK header");
    }
    let head: Head = match select_superblock(prefix) {
        Ok(found) => found.0,
        Err(_) => {
            return Ok(());
        },
    };
    let size: u64 = head.page_size as u64;
    if file_bytes < 2 * size || file_bytes % size != 0 {
        return Ok(());
    }
    match charge(&mut budget, 2 * head.page_size as usize, "two-page inspection scratch") {
        Ok(()) => {},
        Err(error) => {
            return Err(error);
        },
    }
    let count: u64 = file_bytes / size;
    if count > usize::MAX as u64 {
        return Err(over_budget("page-accounting map allocation overflows the host size"));
    }
    charge(&mut budget, count as usize, "page-accounting map")
}

/// A superblock is read the same from a file's first bytes.
proof fn lemma_head_in_prefix(image: Seq<u8>, prefix: Seq<u8>, offset: int)
    requires
        0 <= offset <= 65536,
        prefix == image.subrange(
            0,
            if image.len() < HEADS_BYTES {
                image.len() as int
            } else {
                HEADS_BYTES as int
            },
        ),
    ensures
        reader::head_at(prefix, offset) == reader::head_at(image, offset),
{
    if offset + 64 <= image.len() {
        assert(prefix.subrange(offset, offset + 64) =~= image.subrange(offset, offset + 64));
    }
}

/// A file that its first bytes and its length refuse is refused in full for
/// the same reason.
pub proof fn law_early_refusal_is_refusal(image: Seq<u8>, prefix: Seq<u8>, limit: nat)
    requires
        prefix == image.subrange(
            0,
            if image.len() < HEADS_BYTES {
                image.len() as int
            } else {
                HEADS_BYTES as int
            },
        ),
        refused_early(prefix, image.len(), limit),
    ensures
        if is_pack(image) {
            pack_stats(image, limit) == Err::<StatsView, ErrorKind>(ErrorKind::BudgetExceeded)
        } else {
            opened(image, limit) == Err::<Opened, ErrorKind>(ErrorKind::BudgetExceeded)
        },
{
    assert(prefix.subrange(0, 9) =~= image.subrange(0, 9));
    lemma_head_in_prefix(image, prefix, 0);
    lemma_head_in_prefix(image, prefix, 4096);
    lemma_head_in_prefix(image, prefix, 8192);
    lemma_head_in_prefix(image, prefix, 16384);
    lemma_head_in_prefix(image, prefix, 32768);
    lemma_head_in_prefix(image, prefix, 65536);
    match reader::head_at(image, 0) {
        Some(head) => {
            assert(head.page_size <= 65536);
            lemma_head_in_prefix(image, prefix, head.page_size as int);
        },
        None => {},
    }
    assert(reader::selected(prefix) == reader::selected(image));
}

/// The statistics of a file, with the bytes of its log; those of a container
/// do not count a log.
pub fn collect(image: &Vec<u8>, memory_limit: usize, wal_bytes: u64) -> (result: Result<
    StorageStats,
    StatsError,
>)
    ensures
        if image@.len() < 9 {
            result matches Err(error) && error.kind_of() == ErrorKind::Corrupt
        } else if is_pack(image@) {
            match (result, pack_stats(image@, memory_limit as nat)) {
                (Ok(stats), Ok(want)) => stats@ == want,
                (Err(error), Err(kind)) => error.kind_of() == kind,
                _ => false,
            }
        } else {
            database_holds(result, image@, memory_limit as nat, wal_bytes)
        },
{
    if image.len() < 9 {
        return Err(corrupt("file magic is truncated"));
    }
    if pack::has_magic(image) {
        collect_pack(image, memory_limit)
    } else {
        collect_database(image, memory_limit, wal_bytes)
    }
}

/// The pages of a file that was looked at are counted once each: those of
/// tables and indexes, the free ones, those that say where things are, and
/// those that nothing names make up all pages.
pub proof fn law_reported_pages_add_up(
    stats: StatsView,
    image: Seq<u8>,
    wal_bytes: u64,
    opened: Opened,
    survey: Surveyed,
)
    requires
        tells(stats, image, wal_bytes, opened, survey),
        survey.classes.len() <= u64::MAX,
    ensures
        stats.pages matches Some(counts) && counts.live + counts.free + counts.metadata
            + counts.unaccounted == counts.total && counts.total == survey.classes.len(),
{
    accounting::law_pages_are_counted_once(survey.classes);
}

} // verus!
