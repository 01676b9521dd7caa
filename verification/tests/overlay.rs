use std::sync::Arc;

use devondb_storage::budget::MemoryBudget;
use devondb_storage::catalog::Catalog;
use devondb_storage::error::{DevonError, ErrorKind};
use devondb_storage::keys::PkKey;
use devondb_storage::names::NameMap;
use devondb_storage::overlay::chain::{commit_links_oldest_first, release_chain, settle_link, CommitLink};
use devondb_storage::overlay::delta::{
    CommitDelta, DdlOp, OverlayEdge, COMMIT_LINK_OVERHEAD_BYTES,
};
use devondb_storage::overlay::merge::node_offset;
use devondb_storage::overlay::published::PublishedState;
use devondb_storage::overlay::summary::{
    clear_recent_summaries, prune_recent_summaries, ChargedSummary, CommitSummary,
    COMMIT_SUMMARY_OVERHEAD_BYTES,
};
use devondb_storage::overlay::RelEndpointTombstones;
use devondb_storage::schema::{ColumnDef, NodeTableSchema};
use devondb_storage::txn_log::{
    CommittedGroup, CommittedRecord, DdlPayload, RelEndpoint, WalPayload,
};
use devondb_storage::types::{LogicalType, Value};

fn unlimited() -> MemoryBudget {
    MemoryBudget::new(usize::MAX)
}

fn delta(node_ids: &[i64], edges: &[(u64, u64, i64)]) -> CommitDelta {
    let mut delta = CommitDelta::new();
    delta.nodes.insert(
        "Person".to_owned(),
        node_ids.iter().map(|id| vec![Value::Int64(*id)]).collect(),
    );
    delta.edges.insert(
        "Knows".to_owned(),
        edges
            .iter()
            .map(|(from, to, since)| OverlayEdge {
                from: *from,
                to: *to,
                values: vec![Value::Int64(*since)],
            })
            .collect(),
    );
    delta
}

fn dml_delta(inserts: &[(i64, &str)], updates: &[(i64, &str)], deletes: &[i64]) -> CommitDelta {
    let mut delta = CommitDelta::new();
    if !inserts.is_empty() {
        delta.nodes.insert(
            "Person".to_owned(),
            inserts
                .iter()
                .map(|(id, name)| person_row(*id, name))
                .collect(),
        );
    }
    if !updates.is_empty() {
        delta.node_updates.insert(
            "Person".to_owned(),
            updates
                .iter()
                .map(|(id, name)| person_row(*id, name))
                .collect(),
        );
    }
    if !deletes.is_empty() {
        delta.node_deletes.insert(
            "Person".to_owned(),
            deletes.iter().copied().map(Value::Int64).collect(),
        );
    }
    delta
}

fn person_row(id: i64, name: &str) -> Vec<Value> {
    vec![Value::Int64(id), Value::String(name.to_owned())]
}

fn link(
    prev: Option<Arc<CommitLink>>,
    commit_lsn: u64,
    delta: CommitDelta,
    budget: &mut MemoryBudget,
) -> Arc<CommitLink> {
    CommitLink::new_arc(prev, commit_lsn, delta, budget).unwrap()
}

fn column(name: &str, ty: LogicalType, primary_key: bool) -> ColumnDef {
    ColumnDef {
        name: name.to_owned(),
        ty,
        primary_key,
    }
}

fn state(chain: Option<Arc<CommitLink>>) -> PublishedState {
    let last_commit_lsn = chain.as_ref().map_or(0, |link| link.commit_lsn);
    let mut catalog = Catalog::new();
    catalog
        .add_node_table(NodeTableSchema {
            name: "Person".to_owned(),
            columns: vec![
                column("id", LogicalType::Int64, true),
                column("name", LogicalType::String, false),
            ],
        })
        .unwrap();
    PublishedState {
        catalog: Arc::new(catalog),
        chain,
        last_commit_lsn,
        catalog_generation: 0,
        recent_summaries: Vec::new(),
    }
}

fn rows_of(state: &PublishedState) -> Vec<Vec<Value>> {
    state.node_rows("Person").into_iter().cloned().collect()
}

#[test]
fn overlay_read_order_matches_v0_across_three_links() {
    let mut budget = unlimited();
    let first = link(None, 10, delta(&[1, 2], &[(0, 1, 2001)]), &mut budget);
    let second = link(Some(first), 20, delta(&[3], &[(1, 2, 2002)]), &mut budget);
    let head = link(
        Some(second),
        30,
        delta(&[4, 5], &[(2, 3, 2003), (3, 4, 2004)]),
        &mut budget,
    );
    let state = state(Some(head));

    let lsns: Vec<_> = state
        .commit_links_oldest_first()
        .iter()
        .map(|link| link.commit_lsn)
        .collect();
    let rows: Vec<_> = state
        .node_rows("Person")
        .iter()
        .map(|row| row[0].clone())
        .collect();
    let edges: Vec<_> = state
        .rel_edges("Knows")
        .iter()
        .map(|edge| (edge.from, edge.to, edge.values[0].clone()))
        .collect();

    assert_eq!(lsns, [10, 20, 30]);
    assert_eq!(rows, [1, 2, 3, 4, 5].map(Value::Int64).as_slice());
    assert_eq!(
        edges,
        [
            (0, 1, Value::Int64(2001)),
            (1, 2, Value::Int64(2002)),
            (2, 3, Value::Int64(2003)),
            (3, 4, Value::Int64(2004)),
        ]
    );
}

#[test]
fn overlay_insert_then_update_replaces_row_in_its_insert_position() {
    let mut budget = unlimited();
    let inserted = link(None, 10, dml_delta(&[(1, "old")], &[], &[]), &mut budget);
    let head = link(
        Some(inserted),
        20,
        dml_delta(&[], &[(1, "new")], &[]),
        &mut budget,
    );
    let state = state(Some(head));

    let effects = state.node_dml_effects("Person").unwrap();

    assert_eq!(rows_of(&state), [person_row(1, "new")]);
    assert_eq!(
        effects.update_of(&PkKey::Int64(1)),
        Some(&person_row(1, "new"))
    );
    assert!(effects.no_tombstones());
}

#[test]
fn overlay_insert_then_delete_removes_the_effective_row() {
    let mut budget = unlimited();
    let inserted = link(None, 10, dml_delta(&[(1, "Ada")], &[], &[]), &mut budget);
    let head = link(Some(inserted), 20, dml_delta(&[], &[], &[1]), &mut budget);
    let state = state(Some(head));

    assert_eq!(state.node_rows("Person").len(), 0);
    let effects = state.node_dml_effects("Person").unwrap();
    assert!(effects.no_updates());
    assert!(effects.is_deleted(&PkKey::Int64(1)));
    assert!(!effects.is_deleted(&PkKey::Int64(2)));
}

#[test]
fn overlay_persisted_pk_update_is_an_effect_not_an_overlay_row() {
    let mut budget = unlimited();
    let head = link(
        None,
        10,
        dml_delta(&[], &[(7, "replacement")], &[]),
        &mut budget,
    );
    let state = state(Some(head));

    assert_eq!(state.node_rows("Person").len(), 0);
    let effects = state.node_dml_effects("Person").unwrap();
    assert_eq!(
        effects.update_of(&PkKey::Int64(7)),
        Some(&person_row(7, "replacement"))
    );
}

#[test]
fn overlay_insert_after_delete_revives_the_key_at_a_new_position() {
    let mut budget = unlimited();
    let inserted = link(None, 10, dml_delta(&[(1, "old")], &[], &[]), &mut budget);
    let deleted = link(Some(inserted), 20, dml_delta(&[], &[], &[1]), &mut budget);
    let head = link(
        Some(deleted),
        30,
        dml_delta(&[(1, "revived")], &[], &[]),
        &mut budget,
    );
    let state = state(Some(head));

    let effects = state.node_dml_effects("Person").unwrap();

    assert_eq!(rows_of(&state), [person_row(1, "revived")]);
    assert!(effects.no_updates());
    assert!(effects.no_tombstones());
    let slots = state.node_slots("Person");
    assert_eq!(slots.len(), 2);
    assert_eq!(slots[0].row, None);
    assert_eq!(slots[1].position, 1);
    assert_eq!(slots[1].row, Some(&person_row(1, "revived")));
}

#[test]
fn overlay_newest_update_wins_across_commit_links() {
    let mut budget = unlimited();
    let first = link(None, 10, dml_delta(&[], &[(7, "first")], &[]), &mut budget);
    let head = link(
        Some(first),
        20,
        dml_delta(&[], &[(7, "newest")], &[]),
        &mut budget,
    );
    let state = state(Some(head));

    let effects = state.node_dml_effects("Person").unwrap();

    assert!(!effects.no_updates());
    assert_eq!(
        effects.update_of(&PkKey::Int64(7)),
        Some(&person_row(7, "newest"))
    );
}

#[test]
fn overlay_delete_of_updated_insert_leaves_only_a_tombstone() {
    let mut budget = unlimited();
    let inserted = link(None, 10, dml_delta(&[(1, "old")], &[], &[]), &mut budget);
    let updated = link(
        Some(inserted),
        20,
        dml_delta(&[], &[(1, "new")], &[]),
        &mut budget,
    );
    let head = link(Some(updated), 30, dml_delta(&[], &[], &[1]), &mut budget);
    let state = state(Some(head));

    assert_eq!(state.node_rows("Person").len(), 0);
    let effects = state.node_dml_effects("Person").unwrap();
    assert!(effects.no_updates());
    assert!(effects.is_deleted(&PkKey::Int64(1)));
}

#[test]
fn overlay_commit_delta_builds_directly_from_a_committed_wal_group() {
    let schema = NodeTableSchema {
        name: "Person".to_owned(),
        columns: vec![column("id", LogicalType::Int64, true)],
    };
    let payloads = vec![
        WalPayload::Ddl(DdlPayload::CreateNodeTable(schema.clone())),
        WalPayload::NodeInsert {
            table: "Person".to_owned(),
            row: vec![Value::Int64(7)],
        },
        WalPayload::RelInsert {
            rel: "Knows".to_owned(),
            from: 3,
            to: 7,
            values: vec![Value::Int64(2026)],
        },
    ];
    let group = CommittedGroup {
        commit_lsn: 44,
        records: payloads
            .into_iter()
            .map(|payload| CommittedRecord {
                begin_lsn: 44,
                payload,
            })
            .collect(),
    };

    let delta = CommitDelta::from_committed_group(group).unwrap();

    assert_eq!(
        delta.nodes.get("Person"),
        Some(&vec![vec![Value::Int64(7)]])
    );
    assert_eq!(
        delta.edges.get("Knows"),
        Some(&vec![OverlayEdge {
            from: 3,
            to: 7,
            values: vec![Value::Int64(2026)],
        }])
    );
    assert_eq!(delta.ddl, [DdlOp::CreateNodeTable(schema)]);
}

#[test]
fn overlay_wal_payloads_build_mixed_insert_update_delete_maps() {
    let payloads = vec![
        WalPayload::NodeInsert {
            table: "Person".to_owned(),
            row: person_row(1, "inserted"),
        },
        WalPayload::NodeUpdate {
            table: "Company".to_owned(),
            row: vec![Value::String("devondb".to_owned())],
        },
        WalPayload::NodeUpdate {
            table: "Person".to_owned(),
            row: person_row(1, "first update"),
        },
        WalPayload::NodeUpdate {
            table: "Person".to_owned(),
            row: person_row(1, "second update"),
        },
        WalPayload::NodeDelete {
            table: "Person".to_owned(),
            key: Value::Int64(2),
        },
    ];

    let delta = CommitDelta::from_wal_payloads(payloads).unwrap();

    assert_eq!(
        delta.nodes.get("Person"),
        Some(&vec![person_row(1, "inserted")])
    );
    assert_eq!(
        (0..delta.node_updates.len())
            .map(|at| delta.node_updates.name_at(at))
            .collect::<Vec<_>>(),
        ["Company", "Person"]
    );
    assert_eq!(
        delta.node_updates.get("Person"),
        Some(&vec![
            person_row(1, "first update"),
            person_row(1, "second update")
        ])
    );
    assert_eq!(
        delta.node_deletes.get("Person"),
        Some(&vec![Value::Int64(2)])
    );
}

#[test]
fn overlay_wal_commit_payload_is_rejected_from_a_delta() {
    let error =
        CommitDelta::from_wal_payloads(vec![WalPayload::Commit { records: 1 }]).unwrap_err();

    assert!(matches!(error, DevonError::Corrupt { .. }));
}

#[test]
fn overlay_pk_key_rejects_float64_as_corrupt() {
    let error = PkKey::try_from(&Value::Float64(1.5_f64.to_bits())).unwrap_err();

    assert!(matches!(&error, DevonError::Corrupt { .. }));
    assert!(error.text().contains("Float64"));
}

#[test]
fn overlay_offsets_are_stable_across_link_concatenation() {
    let mut budget = unlimited();
    let first = link(None, 10, delta(&[1, 2], &[]), &mut budget);
    let second = link(Some(first), 20, delta(&[3], &[]), &mut budget);
    let before = state(Some(Arc::clone(&second)));
    let before_offsets: Vec<_> = (0..before.node_rows("Person").len())
        .map(|position| node_offset(7, position).unwrap())
        .collect();

    let third = link(Some(second), 30, delta(&[4, 5], &[]), &mut budget);
    let after = state(Some(third));
    let after_offsets: Vec<_> = (0..after.node_rows("Person").len())
        .map(|position| node_offset(7, position).unwrap())
        .collect();

    assert_eq!(before_offsets, [7, 8, 9]);
    assert_eq!(&after_offsets[..before_offsets.len()], before_offsets);
    assert_eq!(after_offsets, [7, 8, 9, 10, 11]);
    assert!(node_offset(u64::MAX, 1).is_err());
}

#[test]
fn overlay_summary_retention_prunes_at_strict_boundary() {
    let mut budget = unlimited();
    let mut summary = |name: &str| -> ChargedSummary {
        CommitSummary::new_arc(
            CommitSummary::new(NameMap::new(), vec![name.to_owned()]),
            &mut budget,
        )
        .unwrap()
    };
    let mut summaries = vec![
        (10, summary("A")),
        (20, summary("B")),
        (21, summary("C")),
        (30, summary("D")),
    ];
    let kept = Arc::clone(&summaries[2].1.summary);
    let charged: usize = summaries[2..].iter().map(|(_, held)| held.charged_bytes()).sum();

    let retained = prune_recent_summaries(&mut summaries, 20, &mut budget);

    assert_eq!(
        retained.iter().map(|(lsn, _)| *lsn).collect::<Vec<_>>(),
        [21, 30]
    );
    assert!(Arc::ptr_eq(&retained[0].1.summary, &kept));
    assert_eq!(budget.charged(), charged);

    let mut retained = retained;
    clear_recent_summaries(&mut retained, &mut budget);
    assert_eq!(budget.charged(), 0);
}

#[test]
fn overlay_summary_estimate_covers_empty_and_pk_heavy_summaries() {
    let empty = CommitSummary::new(NameMap::new(), Vec::new());
    let mut inserted = NameMap::new();
    inserted.insert(
        "Person".to_owned(),
        vec![Value::String("x".repeat(4096)); 8],
    );
    let heavy = CommitSummary::new(inserted, vec!["CreatedTable".to_owned()]);

    assert_eq!(
        empty.estimated_bytes().unwrap(),
        COMMIT_SUMMARY_OVERHEAD_BYTES
    );
    assert!(heavy.estimated_bytes().unwrap() > 8 * 4096);
}

#[test]
fn overlay_summary_estimate_rejects_checked_arithmetic_overflow() {
    let summary = CommitSummary::new(NameMap::new(), vec!["T".to_owned()]);

    let error = summary.estimated_bytes_with_base(usize::MAX).unwrap_err();

    assert!(matches!(error, DevonError::BudgetExceeded { .. }));
}

#[test]
fn overlay_summary_charge_release_is_paired_and_double_release_safe() {
    let mut budget = MemoryBudget::new(16 * 1024);
    let mut inserted = NameMap::new();
    inserted.insert("Person".to_owned(), vec![Value::Int64(7)]);
    let raw = CommitSummary::new(inserted, Vec::new());
    let expected = raw.estimated_bytes().unwrap();
    let mut summary = CommitSummary::new_arc(raw, &mut budget).unwrap();

    assert_eq!(summary.charged_bytes(), expected);
    assert_eq!(budget.charged(), expected);
    summary.release_charge(&mut budget);
    assert_eq!(summary.charged_bytes(), 0);
    assert_eq!(budget.charged(), 0);
    summary.release_charge(&mut budget);
    drop(summary);
    assert_eq!(budget.charged(), 0);
}

#[test]
fn overlay_budget_charge_and_release_are_symmetric() {
    let mut budget = MemoryBudget::new(16 * 1024);
    let delta = delta(&[1, 2], &[(0, 1, 2026)]);
    let expected = COMMIT_LINK_OVERHEAD_BYTES + delta.estimated_bytes().unwrap();

    let head = link(None, 10, delta, &mut budget);

    assert_eq!(head.charged_bytes, expected);
    assert_eq!(budget.charged(), expected);
    assert!(release_chain(Some(head), &mut budget).is_none());
    assert_eq!(budget.charged(), 0);
}

#[test]
fn overlay_dml_estimate_is_charged_and_released_symmetrically() {
    let mut budget = MemoryBudget::new(16 * 1024);
    let delta = dml_delta(&[], &[(7, "replacement")], &[8]);
    let base = CommitDelta::new().estimated_bytes().unwrap();
    let expected = COMMIT_LINK_OVERHEAD_BYTES + delta.estimated_bytes().unwrap();

    assert!(delta.estimated_bytes().unwrap() > base);
    let head = link(None, 10, delta, &mut budget);
    assert_eq!(head.charged_bytes, expected);
    assert_eq!(budget.charged(), expected);

    assert!(release_chain(Some(head), &mut budget).is_none());
    assert_eq!(budget.charged(), 0);
}

#[test]
fn overlay_budget_shared_chain_releases_only_unshared_links() {
    let mut budget = MemoryBudget::new(16 * 1024);
    let oldest = link(None, 10, delta(&[1], &[]), &mut budget);
    let oldest_charge = oldest.charged_bytes;
    let head = link(
        Some(Arc::clone(&oldest)),
        20,
        delta(&[2], &[]),
        &mut budget,
    );
    assert!(budget.charged() > oldest_charge);

    let rest = release_chain(Some(head), &mut budget);

    assert_eq!(budget.charged(), oldest_charge);
    drop(rest);
    assert!(release_chain(Some(oldest), &mut budget).is_none());
    assert_eq!(budget.charged(), 0);
}

#[test]
fn overlay_deep_chain_drop_is_iterative() {
    let mut budget = unlimited();
    let mut head = None;
    for commit_lsn in 1..=100_000 {
        head = Some(link(head, commit_lsn, CommitDelta::new(), &mut budget));
    }
    assert_eq!(commit_links_oldest_first(&head).len(), 100_000);

    assert!(release_chain(head, &mut budget).is_none());

    assert_eq!(budget.charged(), 0);
}

#[test]
fn a_commit_that_does_not_fit_charges_nothing() {
    let mut budget = MemoryBudget::new(64);
    let error = CommitLink::new_arc(None, 1, delta(&[1], &[]), &mut budget).unwrap_err();
    assert_eq!(error.kind(), ErrorKind::BudgetExceeded);
    assert_eq!(budget.charged(), 0);
}

#[test]
fn a_reserved_link_must_hold_what_was_reserved() {
    let first = delta(&[1], &[]);
    let bytes = COMMIT_LINK_OVERHEAD_BYTES + first.estimated_bytes().unwrap();
    let link = CommitLink::new_arc_reserved(None, 1, first, bytes).unwrap();
    assert_eq!(link.charged_bytes, bytes);
    let error = CommitLink::new_arc_reserved(None, 1, delta(&[1], &[]), bytes - 1).unwrap_err();
    assert_eq!(error.kind(), ErrorKind::InvalidArgument);
}

#[test]
fn gone_endpoints_of_all_commits_are_joined() {
    let mut budget = unlimited();
    let mut older = CommitDelta::new();
    let mut gone = RelEndpointTombstones::new();
    gone.from_offsets.insert(3);
    older.rel_tombstones.insert("Knows".to_owned(), gone);
    let newer = CommitDelta::from_wal_payloads(vec![WalPayload::RelDelete {
        rel: "Knows".to_owned(),
        endpoint: RelEndpoint::To,
        offset: 5,
    }])
    .unwrap();
    let first = link(None, 1, older, &mut budget);
    let head = link(Some(first), 2, newer, &mut budget);
    let state = state(Some(head));
    let all = state.rel_tombstones("Knows");
    assert!(all.from_offsets.contains(&3));
    assert!(all.to_offsets.contains(&5));
    assert!(state.rel_tombstones("Other").is_empty());
    assert_eq!(state.overlay_charged_bytes(), budget.charged());
}

#[test]
fn a_link_goes_with_its_last_hold() {
    let mut budget = unlimited();
    let oldest = link(None, 10, delta(&[1], &[]), &mut budget);
    let head = link(Some(Arc::clone(&oldest)), 20, delta(&[2], &[]), &mut budget);
    let all = budget.charged();
    let second = Arc::clone(&head);
    let (gone, left) = settle_link(Err(head), &mut budget);
    assert!(!gone);
    assert_eq!(left.unwrap().commit_lsn, 20);
    assert_eq!(budget.charged(), all);
    let owned = Arc::try_unwrap(second).unwrap();
    let charge = owned.charged_bytes;
    let (gone, left) = settle_link(Ok(owned), &mut budget);
    assert!(gone);
    assert_eq!(left.unwrap().commit_lsn, 10);
    assert_eq!(budget.charged(), all - charge);
    assert_eq!(budget.charged(), oldest.charged_bytes);
}
