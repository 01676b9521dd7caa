use devondb_storage::budget::MemoryBudget;
use devondb_storage::catalog::Catalog;
use devondb_storage::error::{DevonError, ErrorKind};
use devondb_storage::groups::{GroupStore, NODE_GROUP_CAPACITY};
use devondb_storage::node_table::NodeTable;
use devondb_storage::overlay::RelEndpointTombstones;
use devondb_storage::rel_table::{DetachCheckpointBlocked, Direction, OffsetRemap, RelTable};
use devondb_storage::schema::{ColumnDef, NodeTableSchema, RelTableSchema};
use devondb_storage::types::{LogicalType, Value};

fn column(name: &str, ty: LogicalType, primary_key: bool) -> ColumnDef {
    ColumnDef {
        name: name.to_owned(),
        ty,
        primary_key,
    }
}

fn node_schema() -> NodeTableSchema {
    NodeTableSchema {
        name: "Person".to_owned(),
        columns: vec![column("id", LogicalType::Int64, true)],
    }
}

fn rel_schema() -> RelTableSchema {
    RelTableSchema {
        name: "Knows".to_owned(),
        from: "Person".to_owned(),
        to: "Person".to_owned(),
        columns: vec![column("since", LogicalType::Int64, false)],
    }
}

fn company_schema() -> NodeTableSchema {
    NodeTableSchema {
        name: "Company".to_owned(),
        columns: vec![column("id", LogicalType::Int64, true)],
    }
}

fn works_at_schema() -> RelTableSchema {
    RelTableSchema {
        name: "WorksAt".to_owned(),
        from: "Person".to_owned(),
        to: "Company".to_owned(),
        columns: Vec::new(),
    }
}

fn create_database(row_count: usize) -> (GroupStore, Catalog) {
    let mut store = GroupStore::new();
    let mut catalog = Catalog::new();
    catalog.add_node_table(node_schema()).unwrap();
    catalog.add_rel_table(rel_schema()).unwrap();
    append_checkpointed_nodes(&mut store, &mut catalog, node_schema(), 0, row_count);
    (store, catalog)
}

fn append_checkpointed_nodes(
    store: &mut GroupStore,
    catalog: &mut Catalog,
    schema: NodeTableSchema,
    start: usize,
    end: usize,
) {
    let mut table = NodeTable::new(schema);
    for id in start..end {
        table.recover_row(vec![Value::Int64(id as i64)]).unwrap();
    }
    table.checkpoint(store, catalog).unwrap();
}

fn scanned(table: &RelTable, store: &GroupStore, catalog: &Catalog) -> Vec<(u64, u64, Vec<Value>)> {
    table
        .scan(store, catalog)
        .unwrap()
        .into_iter()
        .map(|edge| (edge.from, edge.to, edge.values))
        .collect()
}

#[test]
fn buffered_edges_are_visible_in_both_directions() {
    let (store, catalog) = create_database(3);
    let mut log = Vec::new();
    let mut table = RelTable::new(rel_schema());
    table.insert(&mut log, 0, 1, vec![Value::Int64(1)]).unwrap();
    table.insert(&mut log, 0, 0, vec![Value::Int64(2)]).unwrap();
    table.insert(&mut log, 2, 0, vec![Value::Int64(3)]).unwrap();

    assert_eq!(
        table
            .neighbors(&store, &catalog, Direction::Out, 0)
            .unwrap(),
        vec![1, 0]
    );
    assert_eq!(
        table.neighbors(&store, &catalog, Direction::In, 0).unwrap(),
        vec![0, 2]
    );
    assert_eq!(
        table
            .neighbors(&store, &catalog, Direction::Both, 0)
            .unwrap(),
        vec![1, 0, 2]
    );
}

#[test]
fn both_rejects_relationships_between_different_node_tables() {
    let store = GroupStore::new();
    let mut catalog = Catalog::new();
    catalog.add_node_table(node_schema()).unwrap();
    catalog.add_node_table(company_schema()).unwrap();
    catalog.add_rel_table(works_at_schema()).unwrap();
    let table = RelTable::new(works_at_schema());

    let error = table
        .neighbors(&store, &catalog, Direction::Both, 0)
        .unwrap_err();

    let DevonError::InvalidArgument { context } = error else {
        panic!("expected InvalidArgument, got {error:?}");
    };
    assert!(context.contains("Person"));
    assert!(context.contains("Company"));
}

#[test]
fn checkpoint_survives_pager_catalog_and_wal_reopen() {
    let (mut store, mut catalog) = create_database(4);
    let mut log = Vec::new();
    let mut table = RelTable::new(rel_schema());
    let expected = vec![
        (0, 1, vec![Value::Int64(10)]),
        (0, 2, vec![Value::Null]),
        (3, 0, vec![Value::Int64(30)]),
    ];
    for (from, to, values) in &expected {
        table.insert(&mut log, *from, *to, values.clone()).unwrap();
    }
    table.checkpoint(&mut store, &mut catalog).unwrap();
    drop(table);
    drop(log);

    let table = RelTable::new(rel_schema());

    assert_eq!(scanned(&table, &store, &catalog), expected);
    assert_eq!(
        table
            .neighbors(&store, &catalog, Direction::Out, 0)
            .unwrap(),
        vec![1, 2]
    );
    assert_eq!(
        table.neighbors(&store, &catalog, Direction::In, 0).unwrap(),
        vec![3]
    );
    assert_eq!(
        table
            .neighbors(&store, &catalog, Direction::Both, 0)
            .unwrap(),
        vec![1, 2, 3]
    );
}

#[test]
fn edges_cross_endpoint_node_group_boundary() {
    let row_count = NODE_GROUP_CAPACITY + 2;
    let (mut store, mut catalog) = create_database(row_count);
    let mut log = Vec::new();
    let mut table = RelTable::new(rel_schema());
    let last_first_group = (NODE_GROUP_CAPACITY - 1) as u64;
    let first_second_group = NODE_GROUP_CAPACITY as u64;
    table
        .insert(
            &mut log,
            last_first_group,
            first_second_group,
            vec![Value::Int64(1)],
        )
        .unwrap();
    table
        .insert(&mut log, first_second_group, 0, vec![Value::Int64(2)])
        .unwrap();
    table.checkpoint(&mut store, &mut catalog).unwrap();

    let storage = catalog.rel_storage("Knows").unwrap();
    assert_eq!(storage.fwd.len(), 2);
    assert_eq!(storage.bwd.len(), 2);
    assert!(storage.fwd.iter().all(|page| *page != 0));
    assert!(storage.bwd.iter().all(|page| *page != 0));
    assert_eq!(
        table
            .neighbors(&store, &catalog, Direction::Out, last_first_group,)
            .unwrap(),
        vec![first_second_group]
    );
    assert_eq!(
        table
            .neighbors(&store, &catalog, Direction::In, first_second_group,)
            .unwrap(),
        vec![last_first_group]
    );
}

#[test]
fn endpoint_tail_growth_after_csr_write_is_readable() {
    let (mut store, mut catalog) = create_database(2);
    let mut log = Vec::new();
    let mut table = RelTable::new(rel_schema());
    table.insert(&mut log, 0, 1, vec![Value::Int64(1)]).unwrap();
    table.checkpoint(&mut store, &mut catalog).unwrap();
    let old_csr = catalog.rel_storage("Knows").unwrap().fwd[0];
    assert_eq!(
        store.read_checked(old_csr, &vec![LogicalType::Int64], 2)
            .unwrap()
            .row_count(),
        2
    );

    append_checkpointed_nodes(&mut store, &mut catalog, node_schema(), 2, 5);
    assert!(
        table
            .neighbors(&store, &catalog, Direction::Out, 4)
            .unwrap()
            .is_empty()
    );
    table.insert(&mut log, 4, 0, vec![Value::Int64(2)]).unwrap();
    assert_eq!(
        table
            .neighbors(&store, &catalog, Direction::Out, 4)
            .unwrap(),
        vec![0]
    );
    table.checkpoint(&mut store, &mut catalog).unwrap();

    let new_csr = catalog.rel_storage("Knows").unwrap().fwd[0];
    assert_ne!(new_csr, old_csr);
    assert_eq!(
        store.read_checked(new_csr, &vec![LogicalType::Int64], 5)
            .unwrap()
            .row_count(),
        5
    );
    assert_eq!(
        table
            .neighbors(&store, &catalog, Direction::Out, 0)
            .unwrap(),
        vec![1]
    );
}

#[test]
fn empty_endpoint_groups_use_zero_or_short_catalog_entries() {
    let (mut store, mut catalog) = create_database(NODE_GROUP_CAPACITY + 1);
    let mut log = Vec::new();
    let mut table = RelTable::new(rel_schema());
    table
        .insert(
            &mut log,
            NODE_GROUP_CAPACITY as u64,
            0,
            vec![Value::Int64(1)],
        )
        .unwrap();
    table.checkpoint(&mut store, &mut catalog).unwrap();

    let storage = catalog.rel_storage("Knows").unwrap();
    assert_eq!(storage.fwd.len(), 2);
    assert_eq!(storage.fwd[0], 0);
    assert_ne!(storage.fwd[1], 0);
    assert_eq!(storage.bwd.len(), 1);
    assert_ne!(storage.bwd[0], 0);
}

#[test]
fn wal_replay_recovers_a_kill_nine_edge() {
    let (store, catalog) = create_database(3);
    let mut log = Vec::new();
    let mut table = RelTable::new(rel_schema());
    table.insert(&mut log, 1, 2, vec![Value::Int64(9)]).unwrap();
    drop(table);

    let mut recovered = RelTable::new(rel_schema());
    for record in log {
        if record.rel == recovered.schema().name {
            recovered
                .recover_edge(record.from, record.to, record.values)
                .unwrap();
        }
    }

    assert_eq!(
        recovered
            .neighbors(&store, &catalog, Direction::Out, 1)
            .unwrap(),
        vec![2]
    );
    assert_eq!(
        scanned(&recovered, &store, &catalog),
        vec![(1, 2, vec![Value::Int64(9)])]
    );
}

#[test]
fn type_mismatch_names_column_and_does_not_write_wal() {
    let (store, _catalog) = create_database(2);
    let mut log = Vec::new();
    let mut table = RelTable::new(rel_schema());

    let error = table
        .insert(&mut log, 0, 1, vec![Value::String("bad".to_owned())])
        .unwrap_err();

    let DevonError::InvalidArgument { context } = error else {
        panic!("expected InvalidArgument, got {error:?}");
    };
    assert!(context.contains("since"));
    assert!(log.is_empty());
    assert!(!table.has_buffered_edges());
}

#[test]
fn checkpoint_rejects_offsets_outside_checkpointed_endpoints() {
    let (mut store, mut catalog) = create_database(2);
    let mut log = Vec::new();
    let mut table = RelTable::new(rel_schema());
    table.insert(&mut log, 2, 0, vec![Value::Int64(1)]).unwrap();

    let error = table.checkpoint(&mut store, &mut catalog).unwrap_err();

    assert!(matches!(error, DevonError::InvalidArgument { .. }));
    assert!(catalog.rel_storage("Knows").is_none());
    assert!(table.has_buffered_edges());
}

#[test]
fn checkpoint_retry_succeeds_after_buffered_endpoint_is_checkpointed() {
    let (mut store, mut catalog) = create_database(0);
    let mut log = Vec::new();
    let mut rows = Vec::new();
    let mut nodes = NodeTable::new(node_schema());
    let mut relationships = RelTable::new(rel_schema());
    nodes.insert(&mut rows, vec![Value::Int64(1)]).unwrap();
    relationships
        .insert(&mut log, 0, 0, vec![Value::Int64(2026)])
        .unwrap();

    let error = relationships.checkpoint(&mut store, &mut catalog).unwrap_err();
    assert!(matches!(error, DevonError::InvalidArgument { .. }));
    assert!(relationships.has_buffered_edges());

    nodes.checkpoint(&mut store, &mut catalog).unwrap();
    relationships.checkpoint(&mut store, &mut catalog).unwrap();

    assert!(!relationships.has_buffered_edges());
    assert_eq!(
        relationships
            .neighbors(&store, &catalog, Direction::Out, 0)
            .unwrap(),
        vec![0]
    );
}

#[test]
fn checkpoint_without_buffered_edges_is_a_no_op() {
    let (mut store, mut catalog) = create_database(2);
    let mut table = RelTable::new(rel_schema());
    let groups = catalog.table_groups("Person").unwrap().clone();
    let stored: Vec<bool> = (0..8).map(|id| store.contains(id)).collect();

    table.checkpoint(&mut store, &mut catalog).unwrap();

    assert_eq!(catalog.table_groups("Person").unwrap(), &groups);
    let left: Vec<bool> = (0..8).map(|id| store.contains(id)).collect();
    assert_eq!(left, stored);
    assert!(catalog.rel_storage("Knows").is_none());
}

#[test]
fn existing_edges_precede_new_edges_after_merge() {
    let (mut store, mut catalog) = create_database(3);
    let mut log = Vec::new();
    let mut table = RelTable::new(rel_schema());
    table.insert(&mut log, 0, 1, vec![Value::Int64(1)]).unwrap();
    table.checkpoint(&mut store, &mut catalog).unwrap();
    let first_page = catalog.rel_storage("Knows").unwrap().fwd[0];
    table.insert(&mut log, 0, 2, vec![Value::Int64(2)]).unwrap();
    table.insert(&mut log, 0, 1, vec![Value::Int64(3)]).unwrap();

    table.checkpoint(&mut store, &mut catalog).unwrap();

    assert_ne!(catalog.rel_storage("Knows").unwrap().fwd[0], first_page);
    assert_eq!(
        table
            .neighbors(&store, &catalog, Direction::Out, 0)
            .unwrap(),
        vec![1, 2, 1]
    );
    assert_eq!(
        scanned(&table, &store, &catalog),
        vec![
            (0, 1, vec![Value::Int64(1)]),
            (0, 2, vec![Value::Int64(2)]),
            (0, 1, vec![Value::Int64(3)]),
        ]
    );
}

#[test]
fn blocked_checkpoint_context_round_trips_a_quoted_relationship_name() {
    let expected = DetachCheckpointBlocked {
        relationship: "Heavy Links direction=inside".to_owned(),
        direction: "bwd".to_owned(),
        group: 7,
        requested: 11,
        charged: 13,
        limit: 17,
    };
    let error = DevonError::BudgetExceeded {
        context: expected.context(),
    };

    assert_eq!(DetachCheckpointBlocked::from_error(&error), Some(expected));
}

#[test]
fn gone_endpoints_hide_their_edges_from_reads() {
    let (store, catalog) = create_database(4);
    let mut log = Vec::new();
    let mut table = RelTable::new(rel_schema());
    table.insert(&mut log, 0, 1, vec![Value::Int64(1)]).unwrap();
    table.insert(&mut log, 0, 2, vec![Value::Int64(2)]).unwrap();
    table.insert(&mut log, 3, 1, vec![Value::Int64(3)]).unwrap();
    let mut gone = RelEndpointTombstones::new();
    gone.to_offsets.insert(1);
    table.set_endpoint_tombstones(gone);

    assert_eq!(
        table.neighbors(&store, &catalog, Direction::Out, 0).unwrap(),
        vec![2]
    );
    assert!(table
        .neighbors(&store, &catalog, Direction::In, 1)
        .unwrap()
        .is_empty());
    assert_eq!(
        table
            .neighbors_before_filtering(&store, &catalog, Direction::Out, 0)
            .unwrap(),
        vec![1, 2]
    );
    assert_eq!(
        scanned(&table, &store, &catalog),
        vec![(0, 2, vec![Value::Int64(2)])]
    );
}

#[test]
fn properties_come_with_the_edges_of_a_row() {
    let (mut store, mut catalog) = create_database(3);
    let mut log = Vec::new();
    let mut table = RelTable::new(rel_schema());
    table.insert(&mut log, 0, 1, vec![Value::Int64(5)]).unwrap();
    table.checkpoint(&mut store, &mut catalog).unwrap();
    table.insert(&mut log, 2, 0, vec![Value::Int64(6)]).unwrap();
    let edges = table
        .neighbors_with_properties(&store, &catalog, Direction::Both, 0)
        .unwrap();
    let shown: Vec<(u64, u64, Vec<Value>)> = edges
        .into_iter()
        .map(|edge| (edge.from, edge.to, edge.values))
        .collect();
    assert_eq!(
        shown,
        vec![
            (0, 1, vec![Value::Int64(5)]),
            (2, 0, vec![Value::Int64(6)]),
        ]
    );
    assert!(
        table
            .property_neighbors_working_set_bytes(&store, &catalog, 1)
            .unwrap()
            > 0
    );
}

#[test]
fn a_cursor_walks_stored_edges_before_buffered_ones() {
    let (mut store, mut catalog) = create_database(3);
    let mut log = Vec::new();
    let mut table = RelTable::new(rel_schema());
    table.insert(&mut log, 2, 1, vec![Value::Int64(1)]).unwrap();
    table.checkpoint(&mut store, &mut catalog).unwrap();
    table.insert(&mut log, 0, 1, vec![Value::Int64(2)]).unwrap();
    let mut cursor = table.scan_cursor(&store, &catalog).unwrap();
    assert_eq!(cursor.next().unwrap().unwrap().from, 2);
    assert_eq!(cursor.next().unwrap().unwrap().from, 0);
    assert!(cursor.next().is_none());
    assert!(cursor.next().is_none());
}

#[test]
fn offsets_move_past_deleted_rows() {
    let remap = OffsetRemap::new(6, vec![1, 4]).unwrap();
    assert_eq!(remap.old_domain(), 6);
    assert_eq!(remap.new_domain().unwrap(), 4);
    assert_eq!(remap.deleted_offsets(), [1, 4]);
    assert!(!remap.is_identity());
    let moved: Vec<Option<u64>> = (0..6).map(|old| remap.map(old).unwrap()).collect();
    assert_eq!(moved, [Some(0), None, Some(1), Some(2), None, Some(3)]);
    assert_eq!(remap.map(6).unwrap_err().kind(), ErrorKind::Corrupt);
    let tidied = OffsetRemap::new(3, vec![2, 1, 2]).unwrap();
    assert_eq!(tidied.deleted_offsets(), [1, 2]);
    assert_eq!(
        OffsetRemap::new(3, vec![3]).unwrap_err().kind(),
        ErrorKind::Corrupt
    );
    let identity = OffsetRemap::identity(3);
    assert!(identity.is_identity());
    assert_eq!(identity.map(2).unwrap(), Some(2));
}

#[test]
fn a_remapped_checkpoint_moves_the_edges_of_survivors() {
    let (mut store, mut old_catalog) = create_database(4);
    let mut log = Vec::new();
    let mut table = RelTable::new(rel_schema());
    for (from, to, since) in [(0, 2, 1), (2, 3, 2), (3, 0, 3)] {
        table
            .insert(&mut log, from, to, vec![Value::Int64(since)])
            .unwrap();
    }
    table.checkpoint(&mut store, &mut old_catalog).unwrap();

    // Row 1 has gone: rows 2 and 3 move down by one.
    let mut new_catalog = Catalog::new();
    new_catalog.add_node_table(node_schema()).unwrap();
    new_catalog.add_rel_table(rel_schema()).unwrap();
    append_checkpointed_nodes(&mut store, &mut new_catalog, node_schema(), 0, 3);
    let remap = OffsetRemap::new(4, vec![1]).unwrap();
    let mut budget = MemoryBudget::new(usize::MAX);
    table
        .checkpoint_with_remap(
            &mut store,
            &old_catalog,
            &mut new_catalog,
            &remap,
            &remap,
            &mut budget,
        )
        .unwrap();

    assert_eq!(
        scanned(&table, &store, &new_catalog),
        vec![
            (0, 1, vec![Value::Int64(1)]),
            (1, 2, vec![Value::Int64(2)]),
            (2, 0, vec![Value::Int64(3)]),
        ]
    );
    assert_eq!(
        table
            .neighbors(&store, &new_catalog, Direction::In, 0)
            .unwrap(),
        vec![2]
    );
    assert_eq!(budget.charged(), 0);
}

#[test]
fn a_remapped_checkpoint_without_memory_names_the_group() {
    let (mut store, mut old_catalog) = create_database(3);
    let mut log = Vec::new();
    let mut table = RelTable::new(rel_schema());
    table.insert(&mut log, 0, 1, vec![Value::Int64(1)]).unwrap();
    table.checkpoint(&mut store, &mut old_catalog).unwrap();
    let mut new_catalog = Catalog::new();
    new_catalog.add_node_table(node_schema()).unwrap();
    new_catalog.add_rel_table(rel_schema()).unwrap();
    append_checkpointed_nodes(&mut store, &mut new_catalog, node_schema(), 0, 2);
    let remap = OffsetRemap::new(3, vec![2]).unwrap();
    let mut budget = MemoryBudget::new(1);
    let error = table
        .checkpoint_with_remap(
            &mut store,
            &old_catalog,
            &mut new_catalog,
            &remap,
            &remap,
            &mut budget,
        )
        .unwrap_err();
    assert_eq!(error.kind(), ErrorKind::BudgetExceeded);
    let blocked = DetachCheckpointBlocked::from_error(&error).unwrap();
    assert_eq!(blocked.relationship, "Knows");
    assert_eq!(blocked.direction, "fwd");
    assert_eq!(blocked.group, 0);
    assert_eq!(blocked.charged, 0);
    assert_eq!(blocked.limit, 1);
    assert_eq!(budget.charged(), 0);
}

#[test]
fn a_refusal_of_both_directions_names_the_tables() {
    let store = GroupStore::new();
    let mut catalog = Catalog::new();
    catalog.add_node_table(node_schema()).unwrap();
    catalog.add_node_table(company_schema()).unwrap();
    catalog.add_rel_table(works_at_schema()).unwrap();
    let table = RelTable::new(works_at_schema());
    assert_eq!(
        table
            .neighbors(&store, &catalog, Direction::Both, 0)
            .unwrap_err()
            .text(),
        "relationship table `WorksAt` cannot use Both direction across node tables `Person` and `Company`"
    );
}

#[test]
fn an_idle_remap_keeps_the_edges_where_they_are() {
    let (mut store, mut catalog) = create_database(3);
    let mut log = Vec::new();
    let mut table = RelTable::new(rel_schema());
    table.insert(&mut log, 0, 2, vec![Value::Int64(1)]).unwrap();
    table.checkpoint(&mut store, &mut catalog).unwrap();
    let before = scanned(&table, &store, &catalog);
    let mut new_catalog = Catalog::new();
    new_catalog.add_node_table(node_schema()).unwrap();
    new_catalog.add_rel_table(rel_schema()).unwrap();
    let groups = catalog.table_groups("Person").unwrap().clone();
    new_catalog.set_table_groups("Person", groups).unwrap();
    let sides = catalog.rel_storage("Knows").unwrap().duplicate();
    new_catalog.set_rel_storage("Knows", sides).unwrap();
    let remap = OffsetRemap::new(3, Vec::new()).unwrap();
    let mut budget = MemoryBudget::new(usize::MAX);
    table
        .checkpoint_with_remap(
            &mut store,
            &catalog,
            &mut new_catalog,
            &remap,
            &remap,
            &mut budget,
        )
        .unwrap();
    assert_eq!(scanned(&table, &store, &new_catalog), before);
    assert_eq!(budget.charged(), 0);
}

#[test]
fn a_misfit_property_says_what_was_expected() {
    let mut log = Vec::new();
    let mut table = RelTable::new(rel_schema());
    assert_eq!(
        table
            .insert(&mut log, 0, 1, vec![Value::Bool(true)])
            .unwrap_err()
            .text(),
        "column `since` in relationship table `Knows` expects Int64 but received Bool"
    );
}
