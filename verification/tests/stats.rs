use devondb_storage::checksum::crc32c_append;
use devondb_storage::free_pages::{LedgerEntry, LedgerPage, SuperblockExtension};
use devondb_storage::pack::pack_pages;
use devondb_storage::stats::collect::{check_limit, collect, feature_names, HEADS_BYTES};
use devondb_storage::stats::facts::parse_catalog;
use devondb_storage::stats::report::write_text;
use devondb_storage::stats::{
    FreeLedgerStatus, PageCounts, StatsError, StorageKind, StorageStats, TableBytes,
};
use devondb_storage::superblock::{Superblock, FREE_PAGES_FLAG, MULTIPAGE_CATALOG_FLAG};

const SIZE: usize = 4096;

struct File {
    image: Vec<u8>,
    superblock: Superblock,
}

impl File {
    fn new(pages: usize, feature_flags: u64) -> File {
        File {
            image: vec![0; pages * SIZE],
            superblock: Superblock {
                format_version: 1,
                min_reader_version: 1,
                feature_flags,
                page_size: SIZE as u32,
                db_id: *b"stats-test-db-id",
                checkpoint_lsn: 7,
                catalog_root: 0,
            },
        }
    }

    fn put(&mut self, page: usize, from: usize, bytes: &[u8]) {
        let at = page * SIZE + from;
        self.image[at..at + bytes.len()].copy_from_slice(bytes);
    }

    fn publish(&mut self) {
        for slot in 0..2 {
            let mut page = vec![0_u8; SIZE];
            self.superblock.encode(&mut page).unwrap();
            let header = page[..64].to_vec();
            self.put(slot, 0, &header);
        }
    }

    fn catalog(&mut self, page: usize, text: &str) {
        let bytes = text.as_bytes();
        self.superblock.catalog_root = page as u64;
        self.put(page, 0, &(bytes.len() as u32).to_le_bytes());
        self.put(page, 4, &crc32c_append(0, bytes).to_le_bytes());
        self.put(page, 8, bytes);
    }

    fn directory(&mut self, page: usize, magic: &[u8], columns: u32, runs: &[(u64, u32)]) {
        self.put(page, 0, magic);
        let at = if magic == b"NGRP" { 8 } else { 12 };
        self.put(page, at, &columns.to_le_bytes());
        for (index, (first, len)) in runs.iter().enumerate() {
            self.put(page, 16 + index * 16, &first.to_le_bytes());
            self.put(page, 24 + index * 16, &len.to_le_bytes());
        }
    }
}

const CATALOG: &str = r#"{"version": 1, "node_tables": [{"name":"Person","columns":[{"name":"id","ty":"Int64"},{"name":"v","ty":{"VectorEncoded":{"dim":8,"encoding":{"kind":"b1","rescore":"f32"}}}}]}],
 "rel_tables": [{"name":"Knows","from":"Person","columns":[]}],
 "storage": {"Person":{"groups":[3]},"knows":{"fwd":[7,0],"bwd":[]}},
 "indexes": []}"#;

fn database() -> File {
    let mut file = File::new(12, 0);
    file.catalog(2, CATALOG);
    file.directory(3, b"NGRP", 2, &[(4, 10), (5, 5000), (11, 0)]);
    file.directory(7, b"RCSR", 0, &[(8, 8), (9, 8)]);
    file.publish();
    file
}

fn stats(file: &File) -> Result<StorageStats, StatsError> {
    collect(&file.image, usize::MAX, 33)
}

fn corrupt(file: &File) {
    assert!(matches!(stats(file), Err(StatsError::Corrupt { .. })));
}

#[test]
fn every_page_of_a_database_is_accounted_for_once() {
    let found = stats(&database()).unwrap();
    assert_eq!(found.kind, StorageKind::Database);
    assert_eq!(found.file_bytes, 12 * SIZE as u64);
    assert_eq!(found.page_size, Some(SIZE as u32));
    // The node group: its directory, one page, two pages, one page.
    assert_eq!(
        found.pages,
        Some(PageCounts {
            total: 12,
            live: 8,
            free: 0,
            metadata: 3,
            unaccounted: 1,
        })
    );
    assert_eq!(
        found.node_tables,
        Some(vec![TableBytes {
            name: "Person".to_owned(),
            pages: 5,
            bytes: 5 * SIZE as u64,
        }])
    );
    assert_eq!(
        found.rel_tables,
        Some(vec![TableBytes {
            name: "Knows".to_owned(),
            pages: 3,
            bytes: 3 * SIZE as u64,
        }])
    );
    assert_eq!(found.wal_bytes, Some(33));
    assert_eq!(found.feature_bits, Some(Vec::new()));
    assert_eq!(found.free_ledger, FreeLedgerStatus::NotPresent);
    assert_eq!(found.pack_logical_bytes, None);
}

#[test]
fn the_report_spells_the_account_out() {
    let mut text = String::new();
    write_text(&stats(&database()).unwrap(), &mut text);
    assert!(text.starts_with("storage stats\nkind: database\nfile bytes: 49152\n"));
    assert!(text.contains("page size: 4096\n"));
    assert!(text.contains("free ledger: not present\n"));
    assert!(text.contains("Person"));
    assert!(text.contains("wal bytes: 33\n"));
}

#[test]
fn a_file_without_a_catalog_has_no_tables() {
    let mut file = File::new(3, 0);
    file.publish();
    let found = stats(&file).unwrap();
    assert_eq!(found.node_tables, Some(Vec::new()));
    assert_eq!(found.pages.unwrap().unaccounted, 1);
}

#[test]
fn a_ledger_says_which_pages_are_free() {
    let mut file = File::new(6, FREE_PAGES_FLAG);
    file.publish();
    let extension = SuperblockExtension {
        retire_ledger_head: 3,
        retire_ledger_tail: 3,
        retired_total: 2,
    };
    for slot in 0..2 {
        let mut page = file.image[slot * SIZE..(slot + 1) * SIZE].to_vec();
        extension.encode_into(&mut page).unwrap();
        file.put(slot, 0, &page);
    }
    let ledger = LedgerPage {
        next_page: 0,
        consumed_count: 1,
        entries: vec![
            LedgerEntry {
                page_id: 4,
                retired_lsn: 1,
            },
            LedgerEntry {
                page_id: 5,
                retired_lsn: 1,
            },
        ],
    };
    file.put(3, 0, &ledger.encode(SIZE).unwrap());
    let found = stats(&file).unwrap();
    assert_eq!(found.free_ledger, FreeLedgerStatus::Active);
    assert_eq!(
        found.pages,
        Some(PageCounts {
            total: 6,
            live: 0,
            free: 1,
            metadata: 3,
            unaccounted: 2,
        })
    );
    assert_eq!(found.feature_bits, Some(vec!["FREE_PAGES (bit 5)".to_owned()]));

    file.image[64] ^= 1;
    assert_eq!(
        stats(&file).unwrap().free_ledger,
        FreeLedgerStatus::Degraded
    );
}

#[test]
fn a_long_catalog_goes_on_in_listed_pages() {
    let mut file = File::new(6, MULTIPAGE_CATALOG_FLAG);
    let mut text = r#"{"node_tables":[{"name":"A","columns":[]}]"#.to_owned();
    text.push_str(&" ".repeat(5000));
    text.push('}');
    let bytes = text.as_bytes();
    file.superblock.catalog_root = 2;
    file.put(2, 0, &(bytes.len() as u32).to_le_bytes());
    file.put(2, 4, &crc32c_append(0, bytes).to_le_bytes());
    file.put(2, 8, &2_u32.to_le_bytes());
    file.put(2, 12, &4_u64.to_le_bytes());
    file.put(2, 20, &3_u64.to_le_bytes());
    file.put(4, 0, &bytes[..SIZE]);
    file.put(3, 0, &bytes[SIZE..]);
    file.publish();
    let found = stats(&file).unwrap();
    assert_eq!(found.pages.unwrap().metadata, 5);
    assert_eq!(found.node_tables.unwrap()[0].name, "A");
    file.put(3, 4000, &[1]);
    corrupt(&file);
}

#[test]
fn an_index_belongs_to_its_node_table() {
    let mut file = File::new(8, 0);
    file.catalog(
        2,
        r#"{"node_tables":[{"name":"Doc","columns":[]}],"indexes":[{"table":"doc","root":3}]}"#,
    );
    file.put(3, 0, b"HNSW");
    file.put(3, 41, &[1]);
    file.put(3, 44, &1_u32.to_le_bytes());
    file.put(3, 48, &4_u64.to_le_bytes());
    file.put(3, 56, &8_u32.to_le_bytes());
    let cells = 5_u64.to_le_bytes();
    file.put(3, 60, &crc32c_append(0, &cells).to_le_bytes());
    file.put(4, 0, &cells);
    file.directory(5, b"RCSR", 0, &[(6, 1), (7, 1)]);
    file.publish();
    let found = stats(&file).unwrap();
    assert_eq!(found.node_tables.unwrap()[0].pages, 5);
    assert_eq!(found.pages.unwrap().unaccounted, 0);

    file.put(4, 100, &[9]);
    corrupt(&file);
}

#[test]
fn pages_that_two_things_claim_are_corrupt() {
    let mut file = database();
    file.directory(7, b"RCSR", 0, &[(8, 8), (4, 8)]);
    corrupt(&file);
    let mut file = database();
    file.directory(7, b"RCSR", 0, &[(8, 8), (40, 8)]);
    corrupt(&file);
    let mut file = database();
    file.directory(3, b"NGRP", 3, &[]);
    corrupt(&file);
    let mut file = database();
    file.put(3, 0, b"RCSR");
    corrupt(&file);
}

#[test]
fn broken_files_are_corrupt() {
    let mut file = database();
    file.image.truncate(8);
    corrupt(&file);
    let mut file = database();
    file.image.truncate(11 * SIZE + 1);
    corrupt(&file);
    let mut file = database();
    file.put(2, 4, &[0, 0, 0, 0]);
    corrupt(&file);
    let mut file = database();
    file.image[..2 * SIZE].fill(0);
    corrupt(&file);
}

#[test]
fn the_second_superblock_stands_in_for_the_first() {
    let mut file = database();
    file.image[..SIZE].fill(0);
    assert_eq!(stats(&file).unwrap().page_size, Some(SIZE as u32));
}

#[test]
fn looking_takes_no_more_memory_than_it_may() {
    let file = database();
    let mut refused = 0;
    for limit in [0, 2 * SIZE, 2 * SIZE + 12, 2 * SIZE + 400, 2 * SIZE + 2000] {
        let error = collect(&file.image, limit, 0).unwrap_err();
        assert!(matches!(error, StatsError::BudgetExceeded { .. }), "{limit}");
        assert!(error.message().starts_with("memory budget exceeded: "));
        refused += 1;
    }
    assert_eq!(refused, 5);
    assert!(collect(&file.image, 64 * 1024, 0).is_ok());
}

#[test]
fn a_container_is_reported_without_its_pages() {
    let packed = pack_pages(&vec![7_u8; 3 * SIZE], SIZE as u32, 2).unwrap();
    let found = collect(&packed, 40 + 32, 0).unwrap();
    assert_eq!(found.kind, StorageKind::Pack);
    assert_eq!(found.file_bytes, packed.len() as u64);
    assert_eq!(found.pages, None);
    assert_eq!(found.wal_bytes, None);
    assert_eq!(found.free_ledger, FreeLedgerStatus::NotApplicable);
    assert_eq!(found.pack_logical_pages, Some(3));
    assert_eq!(found.pack_logical_bytes, Some(3 * SIZE as u64));
    for limit in [39, 71] {
        assert!(matches!(
            collect(&packed, limit, 0),
            Err(StatsError::BudgetExceeded { .. })
        ));
    }
    let mut damaged = packed.clone();
    damaged[41] ^= 1;
    assert!(matches!(
        collect(&damaged, 1000, 0),
        Err(StatsError::Corrupt { .. })
    ));
    let mut text = String::new();
    write_text(&found, &mut text);
    assert!(text.contains("logical main pages: 3\n"));
}

#[test]
fn feature_bits_are_named() {
    assert_eq!(
        feature_names(1 | 1 << 11 | 1 << 13 | 1 << 63),
        vec![
            "HNSW_INDEX (bit 0)",
            "UNKNOWN (bit 11)",
            "COLUMN_ENCODINGS (bit 13)",
            "UNKNOWN (bit 63)",
        ]
    );
}

#[test]
fn a_catalog_says_where_its_tables_are() {
    let facts = parse_catalog(CATALOG.as_bytes()).unwrap();
    let person = facts.nodes.get("person").unwrap();
    assert_eq!(person.name, "Person");
    assert_eq!(person.column_count, 2);
    assert_eq!(person.rescore_count, 1);
    assert_eq!(facts.relationships.get("knows").unwrap().column_count, 0);
    assert_eq!(facts.storage.get("person").unwrap().groups, vec![3]);
    assert_eq!(facts.storage.get("knows").unwrap().forward, vec![7, 0]);
    assert!(facts.indexes.is_empty());
    let text = r#"{"node_tables":[{"name":"\u00c9d\n","columns":[]}]}"#;
    let escaped = parse_catalog(text.as_bytes()).unwrap();
    assert_eq!(escaped.nodes.name_at(0), "\u{c9}d\n");
}

#[test]
fn catalogs_that_say_nothing_are_refused() {
    let cases: [&str; 14] = [
        "",
        "[]",
        "{",
        r#"{} x"#,
        r#"{"node_tables":{}}"#,
        r#"{"node_tables":[{"columns":[]}]}"#,
        r#"{"node_tables":[{"name":"A","columns":[]},{"name":"a","columns":[]}]}"#,
        r#"{"node_tables":[{"name":"A","columns":[{"ty": "Int64"}]}]}"#,
        r#"{"storage":{"a":{"groups":[-1]}}}"#,
        r#"{"storage":{"a":{"groups":[18446744073709551616]}}}"#,
        r#"{"storage":{"a":{},"A":{}}}"#,
        r#"{"indexes":[{"table":"","root":5}]}"#,
        r#"{"indexes":[{"table":"a","root":1}]}"#,
        r#"{"other":tru}"#,
    ];
    for case in cases {
        let error = parse_catalog(case.as_bytes()).unwrap_err();
        assert!(matches!(error, StatsError::Corrupt { .. }), "{case}");
    }
    let deep = format!(r#"{{"other":{}1{}}}"#, "[".repeat(300), "]".repeat(300));
    assert!(parse_catalog(deep.as_bytes()).is_err());
    let shallow = format!(r#"{{"other":{}1{}}}"#, "[".repeat(200), "]".repeat(200));
    assert!(parse_catalog(shallow.as_bytes()).is_ok());
    assert!(parse_catalog(b"{}").is_ok());
    let largest = parse_catalog(br#"{"storage":{"a":{"groups":[18446744073709551615]}}}"#);
    assert_eq!(
        largest.unwrap().storage.get("a").unwrap().groups,
        vec![u64::MAX]
    );
}

#[test]
fn a_file_is_refused_by_its_first_bytes() {
    let file = database();
    let length = file.image.len() as u64;
    let prefix = file.image[..file.image.len().min(HEADS_BYTES)].to_vec();
    let pages = file.image.len() / SIZE;
    assert!(check_limit(&prefix, length, 2 * SIZE + pages).is_ok());
    let error = check_limit(&prefix, length, 2 * SIZE + pages - 1).unwrap_err();
    assert_eq!(
        error.message(),
        format!(
            "memory budget exceeded: page-accounting map needs {pages} bytes with {} of {} bytes already charged",
            2 * SIZE,
            2 * SIZE + pages - 1
        )
    );
    assert!(collect(&file.image, 2 * SIZE + pages - 1, 0).is_err());
    let packed = pack_pages(&vec![7_u8; 3 * SIZE], SIZE as u32, 2).unwrap();
    assert!(check_limit(&packed, packed.len() as u64, 39).is_err());
    assert!(check_limit(&packed, packed.len() as u64, 40).is_ok());
    assert!(check_limit(&vec![1, 2, 3], 3, 0).is_ok());
}

#[test]
fn a_damaged_container_says_what_is_wrong() {
    let packed = pack_pages(&vec![7_u8; 3 * SIZE], SIZE as u32, 2).unwrap();
    let message = |at: usize| {
        let mut damaged = packed.clone();
        damaged[at] ^= 0xff;
        collect(&damaged, 10_000, 0).unwrap_err().message()
    };
    assert!(message(9).ends_with("unsupported DEVONPACK container version 254"));
    assert!(message(10).ends_with("unsupported DEVONPACK codec"));
    assert!(message(12).ends_with("invalid page size"));
    assert!(message(36).ends_with("DEVONPACK header CRC-32C does not match"));
    assert!(message(41).ends_with("DEVONPACK directory CRC-32C does not match"));
}

#[test]
fn faults_of_a_catalog_are_spelled_out() {
    for (bytes, text) in [
        (b"{\"a\" 1}".as_slice(), "catalog JSON expected byte `:` at offset 5"),
        (b"{\"a\":1", "catalog JSON expected byte `}` at offset 5"),
        (b"{\"a\":[1 2]}", "catalog JSON expected byte `]` at offset 8"),
        (b"{\"a", "catalog JSON string is unterminated"),
        (b"{\"a\x01\"", "catalog JSON string contains a control byte"),
        (b"{\"\\", "catalog JSON escape is incomplete"),
        (b"{\"\\q", "catalog JSON escape is invalid"),
        (b"{\"\\u12", "catalog JSON Unicode escape is incomplete"),
        (b"{\"\\udc00\"", "catalog JSON has an unpaired low surrogate"),
        (b"{\"\\ud800\\u0041\"", "catalog JSON has an invalid surrogate pair"),
        (b"{\"\\ud800x", "catalog JSON expected byte `\\` at offset 8"),
        (b"{\"a\":nul}", "catalog JSON literal is invalid"),
        (b"{\"a\":?}", "catalog JSON contains an invalid value"),
    ] {
        match parse_catalog(bytes) {
            Err(StatsError::Corrupt { context }) => assert_eq!(context, text),
            _ => panic!("accepted {bytes:?}"),
        }
    }
}
