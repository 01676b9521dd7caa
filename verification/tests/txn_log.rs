use devondb_storage::error::{DevonError, DevonResult, ErrorKind};
use devondb_storage::json::{is_relationship_record, record_kind, RecordKind};
use devondb_storage::schema::{ColumnDef, NodeTableSchema};
use devondb_storage::txn_log::{
    commit_count, encode_transaction, group_transactions, validate_ddl_schema, validate_payload,
    DdlPayload, RelEndpoint, WalPayload,
};
use devondb_storage::types::{LogicalType, Value};

fn written(payload: WalPayload) -> WalPayload {
    validate_payload(&payload).unwrap();
    payload
}

fn unreadable(payload: &[u8]) -> DevonResult<WalPayload> {
    match record_kind(payload) {
        Ok(kind) => panic!("expected no record kind, got {kind:?}"),
        Err(error) => Err(error),
    }
}

fn column(name: &str, ty: LogicalType, primary_key: bool) -> ColumnDef {
    ColumnDef {
        name: name.to_owned(),
        ty,
        primary_key,
    }
}

fn node_schema(name: &str) -> NodeTableSchema {
    NodeTableSchema {
        name: name.to_owned(),
        columns: vec![column("id", LogicalType::Int64, true)],
    }
}

fn node(table: &str, id: i64) -> WalPayload {
    WalPayload::NodeInsert {
        table: table.to_owned(),
        row: vec![Value::Int64(id)],
    }
}

fn rel(table: &str, from: u64, to: u64) -> WalPayload {
    WalPayload::RelInsert {
        rel: table.to_owned(),
        from,
        to,
        values: vec![Value::Int64(2026)],
    }
}

fn update(table: &str, id: i64, name: &str) -> WalPayload {
    WalPayload::NodeUpdate {
        table: table.to_owned(),
        row: vec![Value::Int64(id), Value::String(name.to_owned())],
    }
}

fn delete(table: &str, id: i64) -> WalPayload {
    WalPayload::NodeDelete {
        table: table.to_owned(),
        key: Value::Int64(id),
    }
}

fn rel_delete(table: &str, endpoint: RelEndpoint, offset: u64) -> WalPayload {
    WalPayload::RelDelete {
        rel: table.to_owned(),
        endpoint,
        offset,
    }
}

fn with_lsns(start: u64, payloads: Vec<WalPayload>) -> Vec<(u64, DevonResult<WalPayload>)> {
    payloads
        .into_iter()
        .enumerate()
        .map(|(index, payload)| (start + index as u64, Ok(payload)))
        .collect()
}

#[test]
fn txn_log_rejects_nonfinite_float64_values_in_node_rows() {
    for value in [f64::NAN, f64::INFINITY, f64::NEG_INFINITY] {
        let payload = WalPayload::NodeInsert {
            table: "Reading".to_owned(),
            row: vec![Value::Float64(value.to_bits())],
        };

        assert_nonfinite_error(&payload, "Reading", "Float64");
    }
}

#[test]
fn txn_log_rejects_nonfinite_float64_values_in_relationship_properties() {
    for value in [f64::NAN, f64::INFINITY, f64::NEG_INFINITY] {
        let payload = WalPayload::RelInsert {
            rel: "Measured".to_owned(),
            from: 4,
            to: 9,
            values: vec![Value::Float64(value.to_bits())],
        };

        assert_nonfinite_error(&payload, "Measured", "Float64");
    }
}

#[test]
fn txn_log_rejects_nonfinite_vector_elements_in_all_row_payloads() {
    for value in [f32::NAN, f32::INFINITY, f32::NEG_INFINITY] {
        let node_payload = WalPayload::NodeInsert {
            table: "Reading".to_owned(),
            row: vec![Value::Vector(vec![0.0_f32.to_bits(), value.to_bits()])],
        };
        let rel_payload = WalPayload::RelInsert {
            rel: "Measured".to_owned(),
            from: 4,
            to: 9,
            values: vec![Value::Vector(vec![value.to_bits(), 1.0_f32.to_bits()])],
        };

        assert_nonfinite_error(&node_payload, "Reading", "Vector");
        assert_nonfinite_error(&rel_payload, "Measured", "Vector");
    }
}

#[test]
fn txn_log_discriminator_must_be_mutually_exclusive() {
    let both = br#"{"table":"Person","row":[],"commit":{"records":1}}"#;
    let neither = br#"{"unknown":true}"#;

    assert!(matches!(
        record_kind(both),
        Err(DevonError::Corrupt { .. })
    ));
    assert!(matches!(
        record_kind(neither),
        Err(DevonError::Corrupt { .. })
    ));
}

#[test]
fn txn_log_rule_1_records_are_contiguous_and_commit_is_last() {
    let records = vec![node("Person", 1), node("Person", 2)];

    let encoded = encode_transaction(&records).unwrap();

    assert_eq!(encoded.len(), 3);
    assert!(matches!(
        &encoded[2],
        WalPayload::Commit { records: 2 }
    ));
    let groups = group_transactions(with_lsns(10, encoded), 0).unwrap();
    assert_eq!(groups.len(), 1);
    assert_eq!(groups[0].records.len(), 2);
}

#[test]
fn txn_log_rule_2_count_excludes_commit_and_empty_transaction_is_rejected() {
    let encoded = encode_transaction(&vec![node("Person", 1), node("Person", 2)]).unwrap();

    assert!(matches!(
        encoded.last().unwrap(),
        WalPayload::Commit { records: 2 }
    ));
    assert!(matches!(
        encode_transaction(&vec![]),
        Err(DevonError::InvalidArgument { .. })
    ));
    assert!(matches!(
        validate_payload(&WalPayload::Commit { records: 0 }),
        Err(DevonError::InvalidArgument { .. })
    ));
}

#[test]
fn txn_log_rule_3_encode_enforces_canonical_record_order() {
    let canonical = vec![
        WalPayload::Ddl(DdlPayload::CreateNodeTable(node_schema("Person"))),
        node("A", 1),
        node("A", 2),
        node("B", 3),
        rel("AEdge", 0, 1),
        rel("BEdge", 1, 2),
        update("A", 1, "updated"),
        rel_delete("AEdge", RelEndpoint::From, 0),
        rel_delete("AEdge", RelEndpoint::To, 0),
        delete("B", 3),
    ];
    assert!(encode_transaction(&canonical).is_ok());

    let wrong_kind_order = vec![node("A", 1), canonical[0].duplicate()];
    let wrong_node_order = vec![node("B", 1), node("A", 2)];
    let wrong_rel_order = vec![rel("BEdge", 0, 1), rel("AEdge", 1, 2)];
    let wrong_rel_delete_order = vec![
        rel_delete("BEdge", RelEndpoint::From, 0),
        rel_delete("AEdge", RelEndpoint::From, 0),
    ];
    let duplicate_rel_delete = vec![
        rel_delete("AEdge", RelEndpoint::From, 0),
        rel_delete("AEdge", RelEndpoint::From, 0),
    ];
    for records in [
        wrong_kind_order,
        wrong_node_order,
        wrong_rel_order,
        wrong_rel_delete_order,
        duplicate_rel_delete,
    ] {
        assert!(matches!(
            encode_transaction(&records),
            Err(DevonError::InvalidArgument { .. })
        ));
    }
}

#[test]
fn txn_log_rule_4_commit_lsn_stamps_every_group_entry() {
    let encoded = encode_transaction(&vec![node("Person", 1), node("Person", 2)]).unwrap();

    let groups = group_transactions(with_lsns(40, encoded), 0).unwrap();

    assert_eq!(groups[0].commit_lsn, 42);
    assert!(
        groups[0]
            .records
            .iter()
            .all(|record| record.begin_lsn == 42)
    );
}

#[test]
fn txn_log_rule_4_trailing_unterminated_group_is_silently_discarded() {
    let mut records = with_lsns(50, encode_transaction(&vec![node("A", 1)]).unwrap());
    records.push((52, Ok(written(node("B", 2)))));

    let groups = group_transactions(records, 0).unwrap();

    assert_eq!(groups.len(), 1);
    assert_eq!(groups[0].commit_lsn, 51);
}

#[test]
fn txn_log_rule_5_count_mismatch_is_corrupt_and_names_commit_lsn() {
    let records = vec![
        (70, Ok(written(node("Person", 1)))),
        (
            71,
            Ok(written(WalPayload::Commit { records: 2 })),
        ),
    ];

    let error = group_transactions(records, 0).unwrap_err();

    match error {
        DevonError::Corrupt { context } => assert!(context.contains("71")),
        other => panic!("expected corrupt WAL error, got {other:?}"),
    }
}

#[test]
fn txn_log_rule_6_checkpointed_groups_are_skipped_at_transaction_granularity() {
    let first = encode_transaction(&vec![node("A", 1)]).unwrap();
    let second = encode_transaction(&vec![node("B", 2)]).unwrap();
    let mut records = with_lsns(80, first);
    records.extend(with_lsns(82, second));

    let groups = group_transactions(records, 81).unwrap();

    assert_eq!(groups.len(), 1);
    assert_eq!(groups[0].commit_lsn, 83);
    assert_eq!(groups[0].records[0].payload, node("B", 2));
}

#[test]
fn txn_log_rule_6_checkpointed_count_mismatch_is_skipped() {
    let records = vec![
        (70, Ok(written(node("Person", 1)))),
        (
            71,
            Ok(written(WalPayload::Commit { records: 2 })),
        ),
    ];

    let groups = group_transactions(records, 71).unwrap();

    assert!(groups.is_empty());
}

#[test]
fn txn_log_commit_lsns_must_strictly_ascend_across_groups() {
    let records = vec![
        (100, Ok(written(node("A", 1)))),
        (
            101,
            Ok(written(WalPayload::Commit { records: 1 })),
        ),
        (102, Ok(written(node("B", 2)))),
        (
            99,
            Ok(written(WalPayload::Commit { records: 1 })),
        ),
    ];

    let error = group_transactions(records, 0).unwrap_err();

    match error {
        DevonError::Corrupt { context } => {
            assert!(context.contains("101"));
            assert!(context.contains("99"));
        }
        other => panic!("expected corrupt WAL error, got {other:?}"),
    }
}

#[test]
fn txn_log_unknown_payload_is_corrupt_and_names_its_lsn() {
    let error =
        group_transactions(vec![(99, unreadable(br#"{"mystery":true}"#))], 0).unwrap_err();

    match error {
        DevonError::Corrupt { context } => assert!(context.contains("99")),
        other => panic!("expected corrupt WAL error, got {other:?}"),
    }
}

fn assert_nonfinite_error(payload: &WalPayload, table: &str, value_kind: &str) {
    let error = validate_payload(payload).unwrap_err();
    match error {
        DevonError::InvalidArgument { context } => {
            assert!(context.contains(table));
            assert!(context.contains(value_kind));
        }
        other => panic!("expected invalid argument, got {other:?}"),
    }
}

#[test]
fn log_records_are_told_apart_by_their_keys() {
    let cases: Vec<(&[u8], RecordKind)> = vec![
        (
            br#"{"table":"Person","row":[{"Int64":7},{"String":"Ada"}]}"#,
            RecordKind::NodeInsert,
        ),
        (
            br#"{"rel":"Knows","from":4,"to":9,"values":[{"Int64":2026}]}"#,
            RecordKind::RelInsert,
        ),
        (
            br#"{"update":{"table":"Person","row":[{"Int64":7},{"String":"Ada"}]}}"#,
            RecordKind::NodeUpdate,
        ),
        (
            br#"{"delete":{"table":"Person","key":{"Int64":7}}}"#,
            RecordKind::NodeDelete,
        ),
        (
            br#"{"rel_delete":{"rel":"Knows","endpoint":"from","offset":7}}"#,
            RecordKind::RelDelete,
        ),
        (
            br#"{"ddl":{"create_node_table":{"name":"Person","columns":[{"name":"id","ty":"Int64","primary_key":true}]}}}"#,
            RecordKind::Ddl,
        ),
        (br#"{"commit":{"records":3}}"#, RecordKind::Commit),
    ];
    for (bytes, kind) in cases {
        assert_eq!(record_kind(bytes).unwrap(), kind);
    }
    for bytes in [b"[1,2]".as_slice(), b"{", b"7", br#"{"mystery":true}"#] {
        assert_eq!(record_kind(bytes).unwrap_err().kind(), ErrorKind::Corrupt);
    }
}

#[test]
fn relationship_records_name_a_relationship() {
    let edge = br#"{"rel":"Knows","from":4,"to":9,"values":[]}"#;
    assert!(is_relationship_record(edge).is_ok());
    let node = br#"{"table":"Person","row":[]}"#;
    assert_eq!(
        is_relationship_record(node).unwrap_err().kind(),
        ErrorKind::NotFound
    );
    assert_eq!(
        is_relationship_record(b"{").unwrap_err().kind(),
        ErrorKind::Corrupt
    );
}

#[test]
fn finite_rows_and_counted_commits_are_writable() {
    let node = WalPayload::NodeInsert {
        table: "Reading".to_owned(),
        row: vec![
            Value::Float64(1.25_f64.to_bits()),
            Value::Vector(vec![0.5_f32.to_bits(), (-2.5_f32).to_bits(), 3.0_f32.to_bits()]),
        ],
    };
    assert!(validate_payload(&node).is_ok());
    assert!(matches!(
        commit_count(3).unwrap(),
        WalPayload::Commit { records: 3 }
    ));
    assert_eq!(commit_count(0).unwrap_err().kind(), ErrorKind::Corrupt);
}

#[test]
fn a_written_transaction_reads_back_as_it_was() {
    let records = vec![
        WalPayload::Ddl(DdlPayload::CreateNodeTable(node_schema("Person"))),
        node("Person", 1),
        update("Person", 1, "Ada"),
        delete("Person", 1),
    ];
    let frames = encode_transaction(&records).unwrap();
    let groups = group_transactions(with_lsns(5, frames), 0).unwrap();
    assert_eq!(groups.len(), 1);
    assert_eq!(groups[0].commit_lsn, 9);
    let read: Vec<WalPayload> = groups[0]
        .records
        .iter()
        .map(|record| record.payload.duplicate())
        .collect();
    assert_eq!(read, records);
}

#[test]
fn refusals_say_which_record_they_are_about() {
    let text = |records: Vec<(u64, DevonResult<WalPayload>)>| {
        group_transactions(records, 0).unwrap_err().text().to_owned()
    };
    assert_eq!(
        text(vec![
            (4, Ok(node("Person", 1))),
            (5, Ok(WalPayload::Commit { records: 1 })),
            (6, Ok(node("Person", 2))),
            (5, Ok(WalPayload::Commit { records: 1 })),
        ]),
        "WAL commit LSNs must strictly ascend across groups: previous commit LSN 5, current commit LSN 5"
    );
    assert_eq!(
        text(vec![
            (4, Ok(node("Person", 1))),
            (12, Ok(WalPayload::Commit { records: 3 })),
        ]),
        "WAL commit at LSN 12 declares 3 records but the group contains 1"
    );
    assert_eq!(
        text(vec![
            (4, Ok(rel_delete("Knows", RelEndpoint::To, 7))),
            (5, Ok(rel_delete("Knows", RelEndpoint::To, 7))),
            (6, Ok(WalPayload::Commit { records: 2 })),
        ]),
        "WAL group committed at LSN 6: duplicate relationship endpoint delete claim for `Knows` To offset 7"
    );
    assert_eq!(
        text(vec![(
            31,
            Err(DevonError::Corrupt {
                context: "torn".to_owned()
            })
        )]),
        "WAL payload at LSN 31: torn"
    );
    assert_eq!(
        text(vec![(
            31,
            Err(DevonError::Io {
                context: "gone".to_owned()
            })
        )]),
        "gone"
    );
}

#[test]
fn keys_that_name_no_one_kind_are_listed() {
    assert_eq!(
        record_kind(br#"{"rel":"Knows","table":"Person"}"#)
            .unwrap_err()
            .text(),
        "WAL payload must contain exactly one discriminator key (commit, ddl, table, rel, update, rel_delete, delete); found [\"table\", \"rel\"]"
    );
    assert!(record_kind(b"{}").unwrap_err().text().ends_with("; found []"));
    assert!(record_kind(b"{")
        .unwrap_err()
        .text()
        .starts_with("WAL payload is not valid JSON: EOF"));
    assert!(is_relationship_record(b"{")
        .unwrap_err()
        .text()
        .starts_with("WAL record is not valid JSON: EOF"));
}

#[test]
fn a_node_table_is_created_with_a_primary_key() {
    let change = |columns: Vec<ColumnDef>| {
        DdlPayload::CreateNodeTable(NodeTableSchema {
            name: "Person".to_owned(),
            columns,
        })
    };
    let key = |ty: LogicalType| vec![column("id", ty, true)];
    assert!(validate_ddl_schema(&change(key(LogicalType::Int64))).is_ok());
    assert!(validate_ddl_schema(&change(key(LogicalType::String))).is_ok());
    for columns in [
        key(LogicalType::Bool),
        vec![column("id", LogicalType::Int64, false)],
        Vec::new(),
    ] {
        let error = validate_ddl_schema(&change(columns)).unwrap_err();
        assert_eq!(error.kind(), ErrorKind::Corrupt);
        assert!(error
            .text()
            .starts_with("DDL WAL payload has an invalid schema: "));
    }
}
