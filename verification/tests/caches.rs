use std::sync::Arc;

use devondb_storage::budget::MemoryBudget;
use devondb_storage::catalog::Catalog;
use devondb_storage::error::ErrorKind;
use devondb_storage::groups::{GroupStore, NodeGroup, StoredGroup};
use devondb_storage::node_table::NodeTable;
use devondb_storage::overlay::fulltext::{
    build_fulltext_index, fulltext_identity_matches, release_index, settle_index, shed_fulltext_caches,
    FullTextRegistry, FullTextResult, DOCUMENT_BYTES,
};
use devondb_storage::overlay::pk_cache::{shed_pk_caches, PkRegistry};
use devondb_storage::overlay::pk_index::{
    build_pk_index, GroupLocation, PkIndexResult, PK_INDEX_BASE_BYTES, PK_INDEX_GROUP_BYTES,
    PK_INDEX_INT_ENTRY_BYTES,
};
use devondb_storage::overlay::published::PublishedState;
use devondb_storage::overlay::reclaim::{
    build_fulltext_index_or_reclaim, build_pk_index_or_reclaim, charge_or_reclaim, make_room,
};
use devondb_storage::pager::cache::FRAME_OVERHEAD;
use devondb_storage::pager::Pager;
use devondb_storage::schema::{ColumnDef, NodeTableSchema};
use devondb_storage::types::{LogicalType, Value};

const PAGE_SIZE: u32 = 4096;

fn schema() -> NodeTableSchema {
    NodeTableSchema {
        name: "Person".to_owned(),
        columns: vec![
            ColumnDef {
                name: "id".to_owned(),
                ty: LogicalType::Int64,
                primary_key: true,
            },
            ColumnDef {
                name: "bio".to_owned(),
                ty: LogicalType::String,
                primary_key: false,
            },
        ],
    }
}

fn row(id: i64) -> Vec<Value> {
    let bio = if id == 2 {
        Value::Null
    } else {
        Value::String(format!("bio-{id}"))
    };
    vec![Value::Int64(id), bio]
}

fn stored(ids: &[i64]) -> (GroupStore, PublishedState) {
    let mut store = GroupStore::new();
    let mut catalog = Catalog::new();
    catalog.add_node_table(schema()).unwrap();
    let mut table = NodeTable::new(schema());
    for id in ids {
        table.recover_row(row(*id)).unwrap();
    }
    table.checkpoint(&mut store, &mut catalog).unwrap();
    let state = PublishedState {
        catalog: Arc::new(catalog),
        chain: None,
        last_commit_lsn: 0,
        catalog_generation: 0,
        recent_summaries: Vec::new(),
    };
    (store, state)
}

fn types() -> Vec<LogicalType> {
    vec![LogicalType::Int64, LogicalType::String]
}

#[test]
fn an_index_finds_the_row_of_each_key() {
    let (store, state) = stored(&[5, 2, 9]);
    let groups = state.catalog.table_storage("Person").unwrap();
    let mut budget = MemoryBudget::new(usize::MAX);
    let index = build_pk_index(&store, groups, &types(), 0, &mut budget)
        .unwrap()
        .unwrap();
    assert_eq!(index.offset(&Value::Int64(9)), Some(2));
    assert_eq!(index.offset(&Value::Int64(7)), None);
    assert_eq!(index.offset(&Value::Bool(true)), None);
    assert_eq!(
        index.locate(&Value::Int64(2)).unwrap(),
        Some((
            1,
            GroupLocation {
                page_id: groups[0],
                start_offset: 0,
                row_count: 3,
            }
        ))
    );
    let bytes = PK_INDEX_BASE_BYTES + PK_INDEX_GROUP_BYTES + 3 * PK_INDEX_INT_ENTRY_BYTES;
    assert_eq!(index.charged_bytes(), bytes);
    assert_eq!(budget.charged(), bytes);

    let mut tight = MemoryBudget::new(bytes - 1);
    assert!(build_pk_index(&store, groups, &types(), 0, &mut tight)
        .unwrap()
        .is_none());
    assert_eq!(tight.charged(), 0);
}

#[test]
fn checkpointed_rows_are_found_by_key() {
    let (store, state) = stored(&[5, 2, 9]);
    let mut registry = PkRegistry::new();
    let mut budget = MemoryBudget::new(usize::MAX);
    assert!(!PublishedState::checkpointed_pk_index_present(
        &state, 1, &registry, "Person"
    ));
    assert_eq!(
        PublishedState::checkpointed_node_offset(
            &state,
            1,
            &mut registry,
            &store,
            "Person",
            &Value::Int64(2),
            &mut budget
        )
        .unwrap(),
        PkIndexResult::Indexed(Some(1))
    );
    assert!(PublishedState::checkpointed_pk_index_present(
        &state, 1, &registry, "person"
    ));
    assert_eq!(
        PublishedState::checkpointed_node_row(
            &state,
            1,
            &mut registry,
            &store,
            "Person",
            &Value::Int64(9),
            &mut budget
        )
        .unwrap(),
        PkIndexResult::Indexed(Some(row(9)))
    );
    assert_eq!(
        PublishedState::checkpointed_node_row(
            &state,
            1,
            &mut registry,
            &store,
            "Person",
            &Value::Int64(1),
            &mut budget
        )
        .unwrap(),
        PkIndexResult::Indexed(None)
    );
    assert!(budget.charged() > 0);
    assert!(shed_pk_caches(&mut registry, &mut budget));
    registry.forget(1, &mut budget);
    assert_eq!(budget.charged(), 0);
}

#[test]
fn the_caches_of_two_tables_do_not_disturb_each_other() {
    let (mut store, _) = stored(&[]);
    let mut catalog = Catalog::new();
    for (name, ids) in [("Person", [5, 6]), ("Place", [6, 7])] {
        let schema = NodeTableSchema {
            name: name.to_owned(),
            ..crate::schema()
        };
        catalog.add_node_table(schema).unwrap();
        let mut table = NodeTable::new(NodeTableSchema {
            name: name.to_owned(),
            ..crate::schema()
        });
        for id in ids {
            table.recover_row(row(id)).unwrap();
        }
        table.checkpoint(&mut store, &mut catalog).unwrap();
    }
    let state = PublishedState {
        catalog: Arc::new(catalog),
        chain: None,
        last_commit_lsn: 0,
        catalog_generation: 0,
        recent_summaries: Vec::new(),
    };
    let mut registry = PkRegistry::new();
    let mut budget = MemoryBudget::new(usize::MAX);
    let mut found = |table: &str, id: i64| {
        PublishedState::checkpointed_node_row(
            &state,
            1,
            &mut registry,
            &store,
            table,
            &Value::Int64(id),
            &mut budget,
        )
        .unwrap()
    };
    assert_eq!(found("Person", 6), PkIndexResult::Indexed(Some(row(6))));
    assert_eq!(found("Place", 6), PkIndexResult::Indexed(Some(row(6))));
    assert_eq!(found("Place", 5), PkIndexResult::Indexed(None));
    assert_eq!(found("Person", 5), PkIndexResult::Indexed(Some(row(5))));
    assert!(budget.charged() > 0);
    assert!(shed_pk_caches(&mut registry, &mut budget));
    registry.forget(1, &mut budget);
    assert_eq!(budget.charged(), 0);
}

#[test]
fn a_successor_takes_over_the_key_indexes() {
    let (store, state) = stored(&[1, 2]);
    let mut registry = PkRegistry::new();
    let mut budget = MemoryBudget::new(usize::MAX);
    PublishedState::checkpointed_node_offset(
        &state,
        1,
        &mut registry,
        &store,
        "Person",
        &Value::Int64(1),
        &mut budget,
    )
    .unwrap();
    let charged = budget.charged();
    PublishedState::adopt_pk_caches(&mut registry, 1, 2, &mut budget);
    assert_eq!(budget.charged(), charged);
    registry.forget(1, &mut budget);
    assert!(PublishedState::checkpointed_pk_index_present(
        &state, 2, &registry, "Person"
    ));
    registry.forget(2, &mut budget);
    assert_eq!(budget.charged(), 0);
}

#[test]
fn an_index_without_room_is_not_asked_for_again() {
    let (store, state) = stored(&[1, 2]);
    let mut registry = PkRegistry::new();
    let mut budget = MemoryBudget::new(PK_INDEX_BASE_BYTES);
    assert_eq!(
        PublishedState::checkpointed_node_offset(
            &state,
            1,
            &mut registry,
            &store,
            "Person",
            &Value::Int64(1),
            &mut budget
        )
        .unwrap(),
        PkIndexResult::Unavailable
    );
    assert_eq!(budget.charged(), 0);
}

#[test]
fn a_text_index_holds_every_text_with_its_row() {
    let (store, state) = stored(&[5, 2, 9]);
    let groups = state.catalog.table_storage("Person").unwrap();
    let mut budget = MemoryBudget::new(usize::MAX);
    let index = build_fulltext_index(&store, groups, &types(), 1, &mut budget).unwrap();
    assert_eq!(index.len(), 2);
    assert_eq!(index.document(0).ordinal, 0);
    assert_eq!(index.document(0).text, "bio-5");
    assert_eq!(index.document(1).ordinal, 2);
    assert_eq!(index.document(1).text, "bio-9");
    assert_eq!(index.charged_bytes(), 2 * (DOCUMENT_BYTES + 5));
    assert_eq!(budget.charged(), index.charged_bytes());

    let error = build_fulltext_index(&store, groups, &types(), 0, &mut budget).unwrap_err();
    assert_eq!(error.kind(), ErrorKind::Corrupt);
    let mut tight = MemoryBudget::new(8);
    let error = build_fulltext_index(&store, groups, &types(), 1, &mut tight).unwrap_err();
    assert_eq!(error.kind(), ErrorKind::BudgetExceeded);
    assert_eq!(tight.charged(), 0);
}

#[test]
fn a_text_index_is_built_once_and_handed_on() {
    let (store, state) = stored(&[1, 3]);
    let mut registry = FullTextRegistry::new();
    let mut budget = MemoryBudget::new(usize::MAX);
    let first = match PublishedState::fulltext_index(
        &state,
        1,
        &mut registry,
        &store,
        "Person",
        "bio",
        &mut budget,
    )
    .unwrap()
    {
        FullTextResult::Indexed(index) => index,
        FullTextResult::Unavailable => panic!("there is room for an index"),
    };
    let again = match PublishedState::fulltext_index(
        &state,
        1,
        &mut registry,
        &store,
        "Person",
        "bio",
        &mut budget,
    )
    .unwrap()
    {
        FullTextResult::Indexed(index) => index,
        FullTextResult::Unavailable => panic!("there is an index"),
    };
    assert!(Arc::ptr_eq(&first, &again));
    assert!(PublishedState::fulltext_index_present(
        &registry, 1, "Person", "bio"
    ));

    let (_, next) = stored(&[1, 3]);
    assert!(fulltext_identity_matches(
        &state.catalog,
        &next.catalog,
        "Person",
        "bio"
    ));
    PublishedState::adopt_fulltext_caches(&state, &next, &mut registry, 1, 2, &mut budget);
    assert!(PublishedState::fulltext_index_present(
        &registry, 2, "Person", "bio"
    ));
    registry.forget(1, &mut budget);
    registry.forget(2, &mut budget);
    assert!(budget.charged() > 0);
    assert!(!release_index(first, &mut budget));
    assert!(release_index(again, &mut budget));
    assert_eq!(budget.charged(), 0);
}

#[test]
fn shedding_lets_go_of_text_indexes_that_nobody_holds() {
    let (store, state) = stored(&[1, 3]);
    let mut registry = FullTextRegistry::new();
    let mut budget = MemoryBudget::new(usize::MAX);
    let result = PublishedState::fulltext_index(
        &state,
        1,
        &mut registry,
        &store,
        "Person",
        "bio",
        &mut budget,
    )
    .unwrap();
    drop(result);
    assert!(budget.charged() > 0);
    assert!(shed_fulltext_caches(&mut registry, &mut budget));
    assert_eq!(budget.charged(), 0);
    assert!(!PublishedState::fulltext_index_present(
        &registry, 1, "Person", "bio"
    ));
}

#[test]
fn unknown_texts_are_not_found() {
    let (store, state) = stored(&[1]);
    let mut registry = FullTextRegistry::new();
    let mut budget = MemoryBudget::new(usize::MAX);
    for (table, column, kind) in [
        ("Person", "missing", ErrorKind::InvalidArgument),
        ("Person", "id", ErrorKind::InvalidArgument),
        ("Company", "bio", ErrorKind::NotFound),
    ] {
        let error = PublishedState::fulltext_index(
            &state,
            1,
            &mut registry,
            &store,
            table,
            column,
            &mut budget,
        )
        .unwrap_err();
        assert_eq!(error.kind(), kind, "{table}.{column}");
    }
}

#[test]
fn groups_read_back_what_was_written() {
    let mut store = GroupStore::new();
    let id = store
        .write(StoredGroup::Node(NodeGroup {
            types: types(),
            rows: vec![row(1), row(2)],
        }))
        .unwrap();
    assert!(store.contains(id));
    assert_eq!(store.read_rows(id, &types()).unwrap(), vec![row(1), row(2)]);
    assert_eq!(store.read_row_count(id, 2, 0).unwrap(), 2);
    assert_eq!(
        store
            .read_rows(id, &vec![LogicalType::Int64])
            .unwrap_err()
            .kind(),
        ErrorKind::Corrupt
    );
    assert_eq!(
        store.read_rows(id + 1, &types()).unwrap_err().kind(),
        ErrorKind::Corrupt
    );
}

#[test]
fn lookups_after_shedding_find_the_same() {
    let (store, state) = stored(&[5, 2, 9]);
    let mut registry = PkRegistry::new();
    let mut budget = MemoryBudget::new(usize::MAX);
    let mut found: Vec<_> = Vec::new();
    for _ in 0..2 {
        for id in [2, 3, 9] {
            found.push(
                PublishedState::checkpointed_node_offset(
                    &state,
                    1,
                    &mut registry,
                    &store,
                    "Person",
                    &Value::Int64(id),
                    &mut budget,
                )
                .unwrap(),
            );
        }
        assert!(shed_pk_caches(&mut registry, &mut budget));
        assert_eq!(budget.charged(), 0);
    }
    assert_eq!(found[0], PkIndexResult::Indexed(Some(1)));
    assert_eq!(found[1], PkIndexResult::Indexed(None));
    assert_eq!(found[..3], found[3..]);
}

#[test]
fn an_index_is_freed_with_its_last_hold() {
    let (store, state) = stored(&[1, 3]);
    let mut registry = FullTextRegistry::new();
    let mut budget = MemoryBudget::new(usize::MAX);
    let result = PublishedState::fulltext_index(
        &state,
        1,
        &mut registry,
        &store,
        "Person",
        "bio",
        &mut budget,
    )
    .unwrap();
    let FullTextResult::Indexed(index) = result else {
        panic!("an index has room");
    };
    let charged = budget.charged();
    assert!(charged > 0);
    shed_fulltext_caches(&mut registry, &mut budget);
    assert_eq!(budget.charged(), charged);
    assert!(!settle_index(Err(Arc::clone(&index)), &mut budget));
    assert_eq!(budget.charged(), charged);
    assert!(settle_index(Ok(Arc::try_unwrap(index).unwrap()), &mut budget));
    assert_eq!(budget.charged(), 0);
}

#[test]
fn charges_that_do_not_fit_give_up_what_is_kept() {
    let frame = PAGE_SIZE as usize + FRAME_OVERHEAD;
    let (store, state) = stored(&[5, 2, 9]);
    let mut keys = PkRegistry::new();
    let mut texts = FullTextRegistry::new();
    let mut budget = MemoryBudget::new(frame * 20);
    let mut pages = Pager::create(PAGE_SIZE, [7; 16]).unwrap().with_budget();
    for _ in 0..10 {
        let page = pages.allocate_page(&mut budget).unwrap();
        pages.read_page_ref(page, &mut budget).unwrap();
    }
    assert_eq!(budget.charged(), frame * 10);
    PublishedState::checkpointed_node_offset(
        &state,
        1,
        &mut keys,
        &store,
        "Person",
        &Value::Int64(2),
        &mut budget,
    )
    .unwrap();
    PublishedState::fulltext_index(&state, 1, &mut texts, &store, "Person", "bio", &mut budget)
        .unwrap();
    let kept = budget.charged() - frame * 10;
    assert!(kept > 0);
    let mut try_to_charge = |bytes: usize, budget: &mut MemoryBudget| {
        let charged = charge_or_reclaim(bytes, &mut pages, &mut keys, &mut texts, budget);
        (
            charged,
            pages.cached_pages(),
            PublishedState::checkpointed_pk_index_present(&state, 1, &keys, "Person"),
            PublishedState::fulltext_index_present(&texts, 1, "Person", "bio"),
        )
    };
    // What fits at once disturbs nothing.
    assert_eq!(try_to_charge(frame, &mut budget), (true, 10, true, true));
    assert_eq!(budget.charged(), frame * 11 + kept);
    // Cached pages make room enough.
    let room = budget.limit() - budget.charged();
    assert_eq!(try_to_charge(room + 1, &mut budget), (true, 7, true, true));
    budget.release(room + 1);
    assert_eq!(budget.charged(), frame * 8 + kept);
    // The indexes go where pages are not enough.
    let most = budget.limit() - frame * 8;
    assert_eq!(try_to_charge(most, &mut budget), (true, 7, false, false));
    assert_eq!(budget.charged(), budget.limit());
    // Nothing is left to give up.
    assert_eq!(try_to_charge(1, &mut budget), (false, 7, false, false));
    assert_eq!(budget.charged(), budget.limit());
}

#[test]
fn an_index_finds_room_where_cached_pages_make_it() {
    let frame = PAGE_SIZE as usize + FRAME_OVERHEAD;
    let (store, state) = stored(&[5, 2, 9]);
    let mut keys = PkRegistry::new();
    let mut texts = FullTextRegistry::new();
    let mut budget = MemoryBudget::new(frame * 9);
    let mut pages = Pager::create(PAGE_SIZE, [7; 16]).unwrap().with_budget();
    for _ in 0..9 {
        let page = pages.allocate_page(&mut budget).unwrap();
        pages.read_page_ref(page, &mut budget).unwrap();
    }
    assert_eq!(budget.charged(), budget.limit());
    assert!(make_room(
        frame,
        &mut pages,
        &mut keys,
        &mut texts,
        &mut budget
    ));
    assert_eq!(pages.cached_pages(), 8);
    assert_eq!(budget.charged(), frame * 8);
    assert_eq!(
        PublishedState::checkpointed_node_offset(
            &state,
            1,
            &mut keys,
            &store,
            "Person",
            &Value::Int64(9),
            &mut budget
        )
        .unwrap(),
        PkIndexResult::Indexed(Some(2))
    );
    assert!(!make_room(
        budget.limit(),
        &mut pages,
        &mut keys,
        &mut texts,
        &mut budget
    ));
    assert!(!PublishedState::checkpointed_pk_index_present(
        &state, 1, &keys, "Person"
    ));
    assert_eq!(budget.charged(), pages.cache_charged_bytes());
}

#[test]
fn a_second_shedding_finds_nothing() {
    let (store, state) = stored(&[5, 2, 9]);
    let mut keys = PkRegistry::new();
    let mut texts = FullTextRegistry::new();
    let mut budget = MemoryBudget::new(usize::MAX);
    PublishedState::checkpointed_node_row(
        &state,
        1,
        &mut keys,
        &store,
        "Person",
        &Value::Int64(9),
        &mut budget,
    )
    .unwrap();
    let found = PublishedState::fulltext_index(
        &state, 1, &mut texts, &store, "Person", "bio", &mut budget,
    )
    .unwrap();
    drop(found);
    assert!(shed_pk_caches(&mut keys, &mut budget));
    assert!(!shed_pk_caches(&mut keys, &mut budget));
    assert!(shed_fulltext_caches(&mut texts, &mut budget));
    assert!(!shed_fulltext_caches(&mut texts, &mut budget));
    assert_eq!(budget.charged(), 0);
}

#[test]
fn the_group_that_a_row_was_read_from_is_kept() {
    let (store, state) = stored(&[5, 2, 9]);
    let mut registry = PkRegistry::new();
    let mut budget = MemoryBudget::new(usize::MAX);
    let mut row_of = |id: i64, budget: &mut MemoryBudget| {
        PublishedState::checkpointed_node_row(
            &state,
            1,
            &mut registry,
            &store,
            "Person",
            &Value::Int64(id),
            budget,
        )
        .unwrap()
    };
    assert_eq!(row_of(9, &mut budget), PkIndexResult::Indexed(Some(row(9))));
    let kept = budget.charged();
    assert_eq!(row_of(5, &mut budget), PkIndexResult::Indexed(Some(row(5))));
    assert_eq!(budget.charged(), kept);
}

#[test]
fn builds_give_caches_up_before_they_are_refused() {
    let frame = PAGE_SIZE as usize + FRAME_OVERHEAD;
    let (store, state) = stored(&[5, 2, 9]);
    let groups = state.catalog.table_storage("Person").unwrap();
    let mut keys = PkRegistry::new();
    let mut texts = FullTextRegistry::new();
    let mut budget = MemoryBudget::new(frame * 9);
    let mut pages = Pager::create(PAGE_SIZE, [7; 16]).unwrap().with_budget();
    for _ in 0..9 {
        let page = pages.allocate_page(&mut budget).unwrap();
        pages.read_page_ref(page, &mut budget).unwrap();
    }
    assert_eq!(budget.charged(), budget.limit());
    assert!(build_pk_index(&store, groups, &types(), 0, &mut budget)
        .unwrap()
        .is_none());
    assert!(build_fulltext_index(&store, groups, &types(), 1, &mut budget).is_err());
    let index = build_pk_index_or_reclaim(
        &store,
        groups,
        &types(),
        0,
        &mut pages,
        &mut keys,
        &mut texts,
        &mut budget,
    )
    .unwrap()
    .unwrap();
    assert_eq!(index.offset(&Value::Int64(9)), Some(2));
    assert_eq!(
        budget.charged(),
        pages.cache_charged_bytes() + index.charged_bytes()
    );
    assert!(pages.cached_pages() < 9);
    let text = build_fulltext_index_or_reclaim(
        &store,
        groups,
        &types(),
        1,
        &mut pages,
        &mut keys,
        &mut texts,
        &mut budget,
    )
    .unwrap();
    assert_eq!(text.len(), 2);
    // Nothing is left to give up.
    let mut little = MemoryBudget::new(1);
    let mut none = Pager::create(PAGE_SIZE, [7; 16]).unwrap().with_budget();
    assert_eq!(
        build_fulltext_index_or_reclaim(
            &store,
            groups,
            &types(),
            1,
            &mut none,
            &mut keys,
            &mut texts,
            &mut little,
        )
        .unwrap_err()
        .kind(),
        ErrorKind::BudgetExceeded
    );
}
