use devondb_storage::catalog::Catalog;
use devondb_storage::error::{DevonError, ErrorKind};
use devondb_storage::groups::{GroupStore, NODE_GROUP_CAPACITY};
use devondb_storage::keys::PkKey;
use devondb_storage::node_table::{DeleteCompaction, NodeDmlEffects, NodeTable, RowRecord};
use devondb_storage::schema::{ColumnDef, NodeTableSchema};
use devondb_storage::types::{LogicalType, Rescore, Value, VectorEncoding};

fn column(name: &str, ty: LogicalType, primary_key: bool) -> ColumnDef {
    ColumnDef {
        name: name.to_owned(),
        ty,
        primary_key,
    }
}

fn schema(name: &str) -> NodeTableSchema {
    NodeTableSchema {
        name: name.to_owned(),
        columns: vec![
            column("id", LogicalType::Int64, true),
            column("name", LogicalType::String, false),
        ],
    }
}

fn row(id: usize) -> Vec<Value> {
    vec![
        Value::Int64(id as i64),
        Value::String(format!("person-{id}")),
    ]
}

fn schema_with_age(name: &str) -> NodeTableSchema {
    NodeTableSchema {
        name: name.to_owned(),
        columns: vec![
            column("id", LogicalType::Int64, true),
            column("name", LogicalType::String, false),
            column("age", LogicalType::Int64, false),
        ],
    }
}

fn row_with_age(id: usize) -> Vec<Value> {
    vec![
        Value::Int64(id as i64),
        Value::String(format!("person-{id}")),
        Value::Int64(id as i64),
    ]
}

fn create_catalog(table_schema: &NodeTableSchema) -> Catalog {
    let mut catalog = Catalog::new();
    catalog.add_node_table(table_schema.clone()).unwrap();
    catalog
}

fn types_of(schema: &NodeTableSchema) -> Vec<LogicalType> {
    schema.columns.iter().map(|column| column.ty).collect()
}

fn recover_table(table: &mut NodeTable, log: &[RowRecord]) {
    let table_name = table.schema().name.clone();
    for record in log {
        if record.table == table_name {
            table.recover_row(record.row.clone()).unwrap();
        }
    }
}

#[test]
fn pre_checkpoint_scan_returns_buffered_rows() {
    let store = GroupStore::new();
    let table_schema = schema("Person");
    let catalog = create_catalog(&table_schema);
    let mut log = Vec::new();
    let mut table = NodeTable::new(table_schema);
    let expected = vec![row(1), row(2), row(3)];

    for value in &expected {
        table.insert(&mut log, value.clone()).unwrap();
    }

    assert_eq!(table.scan(&store, &catalog).unwrap(), expected);
    assert_eq!(log.len(), 3);
    assert_eq!(log[1].table, "Person");
    assert_eq!(log[1].row, row(2));
}

#[test]
fn checkpointed_rows_survive_pager_and_wal_reopen() {
    let mut store = GroupStore::new();
    let table_schema = schema("Person");
    let mut catalog = create_catalog(&table_schema);
    let expected = vec![row(10), row(11), row(12)];
    let mut log = Vec::new();
    let mut table = NodeTable::new(table_schema.clone());
    for value in &expected {
        table.insert(&mut log, value.clone()).unwrap();
    }
    table.checkpoint(&mut store, &mut catalog).unwrap();
    drop(table);
    drop(log);

    let table = NodeTable::new(table_schema);
    assert_eq!(table.scan(&store, &catalog).unwrap(), expected);
}

#[test]
fn checkpoint_writes_full_groups_then_one_partial_group() {
    let mut store = GroupStore::new();
    let table_schema = schema("Person");
    let mut catalog = create_catalog(&table_schema);
    let mut log = Vec::new();
    let mut table = NodeTable::new(table_schema.clone());
    let row_count = NODE_GROUP_CAPACITY + 5;
    for id in 0..row_count {
        table.insert(&mut log, row(id)).unwrap();
    }

    table.checkpoint(&mut store, &mut catalog).unwrap();

    let groups = catalog.table_storage("Person").unwrap();
    assert_eq!(groups.len(), 2);
    let types = types_of(&table_schema);
    let counts = groups
        .iter()
        .map(|group_id| store.read_rows(*group_id, &types).unwrap().len())
        .collect::<Vec<_>>();
    assert_eq!(counts, vec![NODE_GROUP_CAPACITY, 5]);
    assert_eq!(table.scan(&store, &catalog).unwrap().len(), row_count);
}

#[test]
fn second_checkpoint_rewrites_the_partial_tail_group() {
    let mut store = GroupStore::new();
    let table_schema = schema("Person");
    let mut catalog = create_catalog(&table_schema);
    let mut log = Vec::new();
    let mut table = NodeTable::new(table_schema);
    for id in 0..3 {
        table.insert(&mut log, row(id)).unwrap();
    }
    table.checkpoint(&mut store, &mut catalog).unwrap();
    let first_tail = catalog.table_storage("Person").unwrap()[0];
    for id in 3..7 {
        table.insert(&mut log, row(id)).unwrap();
    }

    table.checkpoint(&mut store, &mut catalog).unwrap();

    let groups = catalog.table_storage("Person").unwrap();
    assert_eq!(groups.len(), 1);
    assert_ne!(groups[0], first_tail);
    assert_eq!(
        table.scan(&store, &catalog).unwrap(),
        (0..7).map(row).collect::<Vec<_>>()
    );
}

#[test]
fn reopen_recovers_uncheckpointed_rows_from_wal() {
    let store = GroupStore::new();
    let table_schema = schema("Person");
    let catalog = create_catalog(&table_schema);
    let expected = vec![row(20), row(21)];
    let mut log = Vec::new();
    let mut table = NodeTable::new(table_schema.clone());
    for value in &expected {
        table.insert(&mut log, value.clone()).unwrap();
    }
    drop(table);

    let mut table = NodeTable::new(table_schema);
    recover_table(&mut table, &log);
    assert_eq!(table.scan(&store, &catalog).unwrap(), expected);
}

#[test]
fn recovery_ignores_records_for_other_tables() {
    let store = GroupStore::new();
    let table_schema = schema("Person");
    let catalog = create_catalog(&table_schema);
    let log = vec![RowRecord {
        table: "Company".to_owned(),
        row: row(30),
    }];

    let mut table = NodeTable::new(table_schema);
    recover_table(&mut table, &log);

    assert!(table.scan(&store, &catalog).unwrap().is_empty());
}

#[test]
fn insert_type_mismatch_names_the_column_and_writes_nothing() {
    let store = GroupStore::new();
    let table_schema = schema("Person");
    let catalog = create_catalog(&table_schema);
    let mut log = Vec::new();
    let mut table = NodeTable::new(table_schema);

    let error = table
        .insert(&mut log, vec![Value::Int64(1), Value::Bool(true)])
        .unwrap_err();

    let DevonError::InvalidArgument { context } = error else {
        panic!("expected InvalidArgument, got {error:?}");
    };
    assert!(context.contains("name"));
    assert!(log.is_empty());
    assert!(table.scan(&store, &catalog).unwrap().is_empty());
}

#[test]
fn checkpoint_without_buffered_rows_does_not_advance_lsn() {
    let mut store = GroupStore::new();
    let table_schema = schema("Person");
    let mut catalog = create_catalog(&table_schema);
    let mut table = NodeTable::new(table_schema);

    table.checkpoint(&mut store, &mut catalog).unwrap();

    assert!(!store.contains(2));
    assert_eq!(catalog.table_storage("Person"), None);
}

#[test]
fn dml_update_rewrites_only_its_full_interior_group_and_recomputes_stats() {
    let mut store = GroupStore::new();
    let table_schema = schema_with_age("Person");
    let mut catalog = create_catalog(&table_schema);
    let mut initial = NodeTable::new(table_schema.clone());
    for id in 0..(2 * NODE_GROUP_CAPACITY + 3) {
        initial.recover_row(row_with_age(id)).unwrap();
    }
    initial.checkpoint(&mut store, &mut catalog).unwrap();
    let old_groups = catalog.table_storage("Person").unwrap().clone();
    let target = NODE_GROUP_CAPACITY + 17;
    let replacement = vec![
        Value::Int64(target as i64),
        Value::String("updated".to_owned()),
        Value::Int64(50_000),
    ];
    let mut effects = NodeDmlEffects::new();
    effects.set_update(PkKey::Int64(target as i64), replacement.clone());

    NodeTable::new(table_schema.clone())
        .checkpoint_with_dml(&mut store, &mut catalog, effects, DeleteCompaction::Forbidden)
        .unwrap();

    let new_groups = catalog.table_storage("Person").unwrap().clone();
    assert_eq!(new_groups.len(), 3);
    assert_eq!(new_groups[0], old_groups[0]);
    assert_ne!(new_groups[1], old_groups[1]);
    assert_eq!(new_groups[2], old_groups[2]);
    let rows = NodeTable::new(table_schema.clone())
        .scan(&store, &catalog)
        .unwrap();
    assert_eq!(rows[target], replacement);
    assert_eq!(rows[target - 1][0], Value::Int64(target as i64 - 1));
    assert_eq!(rows[target + 1][0], Value::Int64(target as i64 + 1));
    let types = types_of(&table_schema);
    let ages: Vec<i64> = store
        .read_rows(new_groups[1], &types)
        .unwrap()
        .iter()
        .map(|row| match row[2] {
            Value::Int64(age) => age,
            _ => panic!("an age is an integer"),
        })
        .collect();
    assert_eq!(ages.iter().min(), Some(&2048));
    assert_eq!(ages.iter().max(), Some(&50_000));
}

#[test]
fn dml_delete_compacts_only_when_the_caller_affirms_offset_shifts() {
    let mut store = GroupStore::new();
    let table_schema = schema("Person");
    let mut catalog = create_catalog(&table_schema);
    let mut initial = NodeTable::new(table_schema.clone());
    for id in 0..(NODE_GROUP_CAPACITY + 3) {
        initial.recover_row(row(id)).unwrap();
    }
    initial.checkpoint(&mut store, &mut catalog).unwrap();
    let old_groups = catalog.table_storage("Person").unwrap().clone();
    let mut effects = NodeDmlEffects::new();
    effects.set_deleted(PkKey::Int64(10));

    NodeTable::new(table_schema.clone())
        .checkpoint_with_dml(&mut store, &mut catalog, effects, DeleteCompaction::Permitted)
        .unwrap();

    let new_groups = catalog.table_storage("Person").unwrap().clone();
    assert_ne!(new_groups[0], old_groups[0]);
    assert_ne!(new_groups[1], old_groups[1]);
    let types = types_of(&table_schema);
    let counts = new_groups
        .iter()
        .enumerate()
        .map(|(index, id)| store.read_row_count(*id, types.len(), index).unwrap())
        .collect::<Vec<_>>();
    assert_eq!(counts, [NODE_GROUP_CAPACITY, 2]);
    let rows = NodeTable::new(table_schema.clone())
        .scan(&store, &catalog)
        .unwrap();
    assert_eq!(rows.len(), NODE_GROUP_CAPACITY + 2);
    assert_eq!(rows[10][0], Value::Int64(11));

    let mut refused = NodeDmlEffects::new();
    refused.set_deleted(PkKey::Int64(20));
    let error = NodeTable::new(table_schema)
        .checkpoint_with_dml(&mut store, &mut catalog, refused, DeleteCompaction::Forbidden)
        .unwrap_err();
    assert!(matches!(error, DevonError::InvalidArgument { .. }));
    assert_eq!(catalog.table_storage("Person").unwrap(), &new_groups);
}

#[test]
fn dml_effects_apply_to_buffered_overlay_inserts() {
    let mut store = GroupStore::new();
    let table_schema = schema("Person");
    let mut catalog = create_catalog(&table_schema);
    let mut table = NodeTable::new(table_schema);
    table.recover_row(row(7)).unwrap();
    table.recover_row(row(8)).unwrap();
    let replacement = vec![Value::Int64(7), Value::String("updated".to_owned())];
    let mut effects = NodeDmlEffects::new();
    effects.set_update(PkKey::Int64(7), replacement.clone());
    effects.set_deleted(PkKey::Int64(8));

    table
        .checkpoint_with_dml(&mut store, &mut catalog, effects, DeleteCompaction::Permitted)
        .unwrap();

    assert_eq!(table.scan(&store, &catalog).unwrap(), [replacement]);
}

#[test]
fn dangling_dml_effects_are_checkpoint_corruption() {
    let mut store = GroupStore::new();
    let table_schema = schema("Person");
    let mut catalog = create_catalog(&table_schema);
    let mut initial = NodeTable::new(table_schema.clone());
    initial.recover_row(row(1)).unwrap();
    initial.checkpoint(&mut store, &mut catalog).unwrap();
    let replacement = vec![Value::Int64(99), Value::String("missing".to_owned())];
    let mut update = NodeDmlEffects::new();
    update.set_update(PkKey::Int64(99), replacement);
    let update_error = NodeTable::new(table_schema.clone())
        .checkpoint_with_dml(&mut store, &mut catalog, update, DeleteCompaction::Permitted)
        .unwrap_err();
    assert!(matches!(update_error, DevonError::Corrupt { .. }));

    let mut delete = NodeDmlEffects::new();
    delete.set_deleted(PkKey::Int64(99));
    let delete_error = NodeTable::new(table_schema)
        .checkpoint_with_dml(&mut store, &mut catalog, delete, DeleteCompaction::Permitted)
        .unwrap_err();
    assert!(matches!(delete_error, DevonError::Corrupt { .. }));
}

#[test]
fn a_table_is_stored_under_its_own_schema_only() {
    let mut store = GroupStore::new();
    let mut catalog = create_catalog(&schema("Person"));
    let mut unknown = NodeTable::new(schema("Company"));
    unknown.recover_row(row(1)).unwrap();
    assert_eq!(
        unknown.checkpoint(&mut store, &mut catalog).unwrap_err().kind(),
        ErrorKind::NotFound
    );
    let mut other = NodeTable::new(schema_with_age("Person"));
    other.recover_row(row_with_age(1)).unwrap();
    assert_eq!(
        other.checkpoint(&mut store, &mut catalog).unwrap_err().kind(),
        ErrorKind::InvalidArgument
    );
    assert!(other.has_buffered_rows());
}

#[test]
fn keys_without_a_stored_row_come_from_text_or_integers() {
    assert_eq!(
        PkKey::try_from(&Value::String("ada".to_owned())).unwrap(),
        PkKey::String("ada".to_owned())
    );
    assert_eq!(PkKey::of_value(&Value::Null), None);
    assert_eq!(PkKey::of_row(&row(4), 0), Some(PkKey::Int64(4)));
    assert_eq!(PkKey::of_row(&row(4), 9), None);
}

#[test]
fn schemas_that_differ_in_a_vector_encoding_differ() {
    let table_schema = |encoding: VectorEncoding| NodeTableSchema {
        name: "Item".to_owned(),
        columns: vec![
            column("id", LogicalType::Int64, true),
            column("v", LogicalType::VectorEncoded { dim: 2, encoding }, false),
        ],
    };
    let stored = VectorEncoding::B1 {
        rescore: Rescore::F32,
    };
    let mut store = GroupStore::new();
    let mut catalog = create_catalog(&table_schema(stored));
    for other in [
        VectorEncoding::F16,
        VectorEncoding::B1 {
            rescore: Rescore::Never,
        },
    ] {
        let mut table = NodeTable::new(table_schema(other));
        table
            .recover_row(vec![Value::Int64(1), Value::Vector(vec![0, 0])])
            .unwrap();
        assert_eq!(
            table.checkpoint(&mut store, &mut catalog).unwrap_err().kind(),
            ErrorKind::InvalidArgument
        );
    }
    let mut table = NodeTable::new(table_schema(stored));
    table
        .recover_row(vec![Value::Int64(1), Value::Vector(vec![0, 0])])
        .unwrap();
    assert!(table.checkpoint(&mut store, &mut catalog).is_ok());
}

#[test]
fn refused_effects_name_the_key() {
    let mut store = GroupStore::new();
    let table_schema = schema("Person");
    let mut catalog = create_catalog(&table_schema);
    let mut refusal = |effects: NodeDmlEffects| {
        NodeTable::new(schema("Person"))
            .checkpoint_with_dml(&mut store, &mut catalog, effects, DeleteCompaction::Permitted)
            .unwrap_err()
            .text()
            .to_owned()
    };
    let named = |id: i64| vec![Value::Int64(id), Value::String("x".to_owned())];

    let mut both = NodeDmlEffects::new();
    both.set_update(PkKey::Int64(3), named(3));
    both.set_deleted(PkKey::Int64(3));
    assert_eq!(
        refusal(both),
        "node table `Person` has a primary key with both update and delete effects"
    );

    let mut other_key = NodeDmlEffects::new();
    other_key.set_update(PkKey::Int64(-5), named(4));
    assert_eq!(
        refusal(other_key),
        "checkpoint update key -5 disagrees with its replacement row in node table `Person`"
    );

    let mut misfit = NodeDmlEffects::new();
    misfit.set_update(PkKey::Int64(1), vec![Value::Int64(1), Value::Bool(true)]);
    assert_eq!(
        refusal(misfit),
        "checkpoint update for node table `Person` carries an invalid replacement row: column `name` in node table `Person` expects String but received Bool"
    );

    let mut unmet = NodeDmlEffects::new();
    unmet.set_update(PkKey::Int64(9), named(9));
    unmet.set_update(PkKey::Int64(-2), named(-2));
    unmet.set_deleted(PkKey::Int64(-7));
    assert_eq!(
        refusal(unmet),
        "checkpoint update for node table `Person` targets primary key -2 which exists nowhere in persisted or overlay rows"
    );
    let mut gone = NodeDmlEffects::new();
    gone.set_deleted(PkKey::String("a\"b".to_owned()));
    assert_eq!(
        refusal(gone),
        "checkpoint delete for node table `Person` targets primary key \"a\\\"b\" which exists nowhere in persisted or overlay rows"
    );
}
