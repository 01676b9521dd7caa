//! Checkpoints: buffered edges become stored groups.

use vstd::prelude::*;

use crate::budget::MemoryBudget;
use crate::catalog;
use crate::catalog::{duplicate_ids, Catalog, CatalogView, RelStorage, RelStorageView};
use crate::error::{corrupt, invalid_argument, DevonError, DevonResult, ErrorKind};
use crate::groups;
use crate::groups::{values_tally, EdgeView, GroupStore, GroupView};
use crate::overlay::{RelEndpointTombstones, TombstonesView};
use crate::rel_table;
use crate::rel_table::edges;
use crate::rel_table::edges::{Direction, RelationshipView, ScannedRelationship, SideView};
use crate::rel_table::layout;
use crate::rel_table::layout::{endpoint_layout, EndpointLayout};
use crate::rel_table::merge;
use crate::rel_table::merge::{merge_direction, MergeView};
use crate::rel_table::remap;
use crate::rel_table::remap::{OffsetRemap, RemapView};
use crate::rel_table::rewrite;
use crate::rel_table::rewrite::{carry_edges, Fault, Job, JobView};
use crate::rel_table::{
    ensure_catalog_schema, sides_from, RelTable, Side, SidesView, TableView,
};
use crate::schema;
use crate::schema::RelSchemaView;
use crate::tally::Tally;
use crate::text::{with_name, with_number};
use crate::types;

verus! {

/// Bytes that a row of a property adjacency takes besides its edges.
pub const ADJACENCY_ROW_BYTES: u64 = 128;

/// Bytes that a scanned relationship takes besides its values.
pub const SCANNED_EDGE_BYTES: u64 = 104;

/// Bytes that a buffered relationship takes besides its values.
pub const BUFFERED_EDGE_BYTES: u64 = 128;

/// What a checkpoint leaves: the groups, the next page id and the catalog.
#[verifier::ext_equal]
pub struct CheckpointView {
    pub store: Map<u64, GroupView>,
    pub next: u64,
    pub catalog: CatalogView,
}

/// Whether all buffered edges are between stored rows.
pub open spec fn offsets_stored(
    buffered: Seq<RelationshipView>,
    from_counts: Seq<nat>,
    to_counts: Seq<nat>,
) -> bool {
    forall|i: int|
        #![trigger buffered[i]]
        0 <= i < buffered.len() ==> buffered[i].from < layout::total_rows(from_counts)
            && buffered[i].to < layout::total_rows(to_counts)
}

/// Merges buffered edges into both sides, outgoing first.
pub open spec fn merge_both(
    store: Map<u64, GroupView>,
    next: u64,
    sides: SidesView,
    buffered: Seq<RelationshipView>,
) -> Result<(MergeView, MergeView), ErrorKind> {
    match merge::merge(
        MergeView { store, next, ids: sides.out.ids },
        sides.out,
        buffered,
        Direction::Out,
        0,
    ) {
        Err(kind) => Err(kind),
        Ok(out) => match merge::merge(
            MergeView { store: out.store, next: out.next, ids: sides.into.ids },
            sides.into,
            buffered,
            Direction::In,
            0,
        ) {
            Err(kind) => Err(kind),
            Ok(into) => Ok((out, into)),
        },
    }
}

/// What a checkpoint of a table leaves, or the kind of error that stops it.
pub open spec fn checkpoint_of(
    store: Map<u64, GroupView>,
    next: u64,
    catalog: CatalogView,
    table: TableView,
) -> Result<CheckpointView, ErrorKind> {
    if table.edges.len() == 0 {
        Ok(CheckpointView { store, next, catalog })
    } else {
        match rel_table::schema_fault(catalog, table.schema) {
            Some(kind) => Err(kind),
            None => match (
                layout::layout_of(store, catalog, table.schema.from),
                layout::layout_of(store, catalog, table.schema.to),
            ) {
                (Err(kind), _) => Err(kind),
                (Ok(_), Err(kind)) => Err(kind),
                (Ok(from_counts), Ok(to_counts)) => {
                    if !offsets_stored(table.edges, from_counts, to_counts) {
                        Err(ErrorKind::InvalidArgument)
                    } else {
                        match rel_table::sides_of(store, catalog, table.schema) {
                            Err(kind) => Err(kind),
                            Ok(sides) => match merge_both(store, next, sides, table.edges) {
                                Err(kind) => Err(kind),
                                Ok((out, into)) => Ok(
                                    CheckpointView {
                                        store: into.store,
                                        next: into.next,
                                        catalog: catalog::with_rel_storage(
                                            catalog,
                                            table.schema.name,
                                            RelStorageView { fwd: out.ids, bwd: into.ids },
                                        ),
                                    },
                                ),
                            },
                        }
                    }
                },
            },
        }
    }
}

/// A layout that was readable stays when a store grows.
proof fn lemma_layout_kept(
    old_store: Map<u64, GroupView>,
    new_store: Map<u64, GroupView>,
    old_catalog: CatalogView,
    new_catalog: CatalogView,
    name: Seq<char>,
)
    requires
        merge::extends(old_store, new_store),
        old_catalog.nodes == new_catalog.nodes,
        layout::layout_of(old_store, old_catalog, name) is Ok,
    ensures
        layout::layout_of(new_store, new_catalog, name) == layout::layout_of(
            old_store,
            old_catalog,
            name,
        ),
{
    let entry = catalog::node_of(old_catalog, name)->Some_0;
    let columns = entry.schema.columns.len();
    assert forall|i: int| 0 <= i < entry.groups.len() implies groups::node_rows(
        new_store,
        #[trigger] entry.groups[i],
        columns,
    ) == groups::node_rows(old_store, entry.groups[i], columns) by {
        assert(groups::node_rows(old_store, entry.groups[i], columns) is Some);
    }
    assert(layout::counts_of(new_store, columns, entry.groups) =~= layout::counts_of(
        old_store,
        columns,
        entry.groups,
    ));
}

/// Values that fit columns fit their types.
proof fn lemma_values_fit(columns: Seq<schema::ColumnView>, values: Seq<types::ValueView>)
    requires
        schema::row_fits(columns, values),
    ensures
        groups::values_fit(schema::types_of(columns), values),
{
    let kinds = schema::types_of(columns);
    assert forall|i: int| 0 <= i < values.len() implies (#[trigger] values[i]).fits_type(
        kinds[i],
    ) by {
        assert(values[i].fits_type(columns[i].ty));
    }
}

/// A checkpoint changes no row's edges: what reading them gave before, it
/// gives behind it.
pub proof fn law_checkpoint_keeps_adjacency(
    store: Map<u64, GroupView>,
    next: u64,
    catalog: CatalogView,
    table: TableView,
    direction: Direction,
    row: u64,
)
    requires
        rel_table::edges_fit(table.schema, table.edges),
        merge::fresh(store, next),
        checkpoint_of(store, next, catalog, table) is Ok,
        rel_table::adjacency(store, catalog, table, direction, row) is Ok,
    ensures
        ({
            let after = checkpoint_of(store, next, catalog, table)->Ok_0;
            rel_table::adjacency(
                after.store,
                after.catalog,
                (TableView { edges: Seq::empty(), ..table }),
                direction,
                row,
            ) == rel_table::adjacency(store, catalog, table, direction, row)
        }),
{
    let after = checkpoint_of(store, next, catalog, table)->Ok_0;
    let emptied = TableView { edges: Seq::empty(), ..table };
    if table.edges.len() == 0 {
        assert(emptied =~= table);
    } else {
        let sides = rel_table::sides_of(store, catalog, table.schema)->Ok_0;
        let (out, into) = merge_both(store, next, sides, table.edges)->Ok_0;
        let start = MergeView { store, next, ids: sides.out.ids };
        let middle = MergeView { store: out.store, next: out.next, ids: sides.into.ids };
        assert forall|i: int| 0 <= i < table.edges.len() implies groups::values_fit(
            sides.out.types,
            (#[trigger] table.edges[i]).values,
        ) by {
            lemma_values_fit(table.schema.columns, table.edges[i].values);
        }
        assert(merge::edges_between(table.edges, Direction::Out, sides.out));
        assert(merge::edges_between(table.edges, Direction::In, sides.into));
        merge::lemma_merge(start, sides.out, table.edges, Direction::Out, 0);
        merge::lemma_merge(middle, sides.into, table.edges, Direction::In, 0);
        let storage = RelStorageView { fwd: out.ids, bwd: into.ids };
        catalog::law_rel_storage_reads_back(catalog, table.schema.name, storage);
        assert(merge::extends(store, into.store)) by {
            assert forall|id: u64| #[trigger] store.dom().contains(id) implies
                into.store.dom().contains(id) && into.store[id] == store[id] by {
                assert(out.store.dom().contains(id));
            }
        }
        lemma_layout_kept(store, into.store, catalog, after.catalog, table.schema.from);
        lemma_layout_kept(store, into.store, catalog, after.catalog, table.schema.to);
        let now = rel_table::sides_of(after.store, after.catalog, table.schema)->Ok_0;
        assert(now =~= SidesView {
            out: SideView { ids: out.ids, ..sides.out },
            into: SideView { ids: into.ids, ..sides.into },
        });
        assert(merge::rows_merged(start, sides.out, table.edges, Direction::Out, 0, row));
        assert(merge::rows_merged(middle, sides.into, table.edges, Direction::In, 0, row));
        lemma_side_kept(
            store,
            out.store,
            into.store,
            sides.out,
            now.out,
            table,
            Direction::Out,
            row,
        );
        if edges::stored(store, sides.into, row) is Ok {
            merge::lemma_stored_kept(store, out.store, sides.into, sides.into, row);
        }
        lemma_side_kept(
            store,
            into.store,
            into.store,
            sides.into,
            now.into,
            table,
            Direction::In,
            row,
        );
    }
}

/// One side of a row's edges stays.
proof fn lemma_side_kept(
    store: Map<u64, GroupView>,
    merged: Map<u64, GroupView>,
    last: Map<u64, GroupView>,
    before: SideView,
    now: SideView,
    table: TableView,
    direction: Direction,
    row: u64,
)
    requires
        now == (SideView { ids: now.ids, ..before }),
        merge::extends(merged, last),
        forall|i: int|
            #![trigger table.edges[i]]
            0 <= i < table.edges.len() ==> edges::near(table.edges[i], direction)
                < layout::total_rows(before.counts),
        edges::stored(store, before, row) is Ok ==> row >= layout::total_rows(before.counts)
            || edges::stored(merged, now, row) == Ok::<Seq<EdgeView>, ErrorKind>(
            edges::stored(store, before, row)->Ok_0 + edges::incident(
                table.edges,
                direction,
                row,
            ),
        ),
    ensures
        edges::seen(store, before, table.edges, table.gone, direction, row) is Ok ==> edges::seen(
            last,
            now,
            Seq::empty(),
            table.gone,
            direction,
            row,
        ) == edges::seen(store, before, table.edges, table.gone, direction, row),
{
    if edges::stored(store, before, row) is Ok {
        let held = edges::stored(store, before, row)->Ok_0;
        let all = held + edges::incident(table.edges, direction, row);
        if row >= layout::total_rows(before.counts) {
            layout::lemma_no_group(before.counts, row as int);
            assert forall|i: int| 0 <= i < table.edges.len() implies #[trigger] edges::near(
                table.edges[i],
                direction,
            ) != row by {
                assert(edges::near(table.edges[i], direction) < layout::total_rows(before.counts));
            }
            merge::lemma_no_incident(table.edges, direction, row);
            assert(all =~= Seq::<EdgeView>::empty());
        } else {
            merge::lemma_stored_kept(merged, last, now, now, row);
        }
        assert(edges::incident(Seq::<RelationshipView>::empty(), direction, row)
            =~= Seq::<EdgeView>::empty());
        assert(all + Seq::<EdgeView>::empty() =~= all);
    }
}

fn outside(index: usize, end: &str, offset: u64, rows: u64) -> (error: DevonError)
    ensures
        error.kind_of() == ErrorKind::InvalidArgument,
{
    let head: String = with_number("edge ", index as u64, " ");
    let named: String = with_name(head.as_str(), end, " offset ");
    let middle: String = with_number(
        named.as_str(),
        offset,
        " is outside checkpointed row count ",
    );
    invalid_argument(with_number(middle.as_str(), rows, "").as_str())
}

fn validate_buffered_offsets(
    buffered: &Vec<ScannedRelationship>,
    from_layout: &EndpointLayout,
    to_layout: &EndpointLayout,
) -> (result: DevonResult<()>)
    requires
        from_layout.wf(),
        to_layout.wf(),
    ensures
        match result {
            Ok(()) => offsets_stored(
                edges::relationships(buffered@),
                from_layout@,
                to_layout@,
            ),
            Err(error) => !offsets_stored(
                edges::relationships(buffered@),
                from_layout@,
                to_layout@,
            ) && error.kind_of() == ErrorKind::InvalidArgument,
        },
{
    let ghost all = edges::relationships(buffered@);
    let mut i: usize = 0;
    while i < buffered.len()
        invariant
            i <= buffered@.len(),
            from_layout.wf(),
            to_layout.wf(),
            all == edges::relationships(buffered@),
            forall|k: int|
                #![trigger all[k]]
                0 <= k < i ==> all[k].from < layout::total_rows(from_layout@) && all[k].to
                    < layout::total_rows(to_layout@),
        decreases buffered@.len() - i,
    {
        assert(all[i as int] == buffered@[i as int]@);
        if buffered[i].from >= from_layout.total() {
            return Err(outside(i, "from", buffered[i].from, from_layout.total()));
        }
        if buffered[i].to >= to_layout.total() {
            return Err(outside(i, "to", buffered[i].to, to_layout.total()));
        }
        i += 1;
    }
    Ok(())
}

/// What the memory of a table's property adjacency is sized at: the rows,
/// the stored groups and the buffered edges, four times.
pub open spec fn working_set(
    store: Map<u64, GroupView>,
    catalog: CatalogView,
    table: TableView,
    source_rows: nat,
) -> Option<nat> {
    let ids = catalog::ids_of(catalog, table.schema.name);
    let types = schema::types_of(table.schema.columns);
    match pages_bytes(store, ids.fwd + ids.bwd, types) {
        Some(pages) => Some(
            4 * (source_rows * ADJACENCY_ROW_BYTES as nat + pages + buffered_bytes(table.edges)),
        ),
        None => None,
    }
}

/// The bytes of stored groups, decoded, encoded and as relationships; none
/// where one is not readable.
pub open spec fn pages_bytes(
    store: Map<u64, GroupView>,
    ids: Seq<u64>,
    types: Seq<types::LogicalType>,
) -> Option<nat>
    decreases ids.len(),
{
    if ids.len() == 0 {
        Some(0)
    } else {
        match pages_bytes(store, ids.drop_last(), types) {
            None => None,
            Some(before) => if ids.last() == 0 {
                Some(before)
            } else {
                match groups::csr_at(store, ids.last(), types, u64::MAX as nat) {
                    None => None,
                    Some(csr) => Some(
                        before + rewrite::both_forms(csr) + groups::edge_total(csr.slots)
                            * SCANNED_EDGE_BYTES as nat,
                    ),
                }
            },
        }
    }
}

/// The bytes of buffered edges.
pub open spec fn buffered_bytes(buffered: Seq<RelationshipView>) -> nat
    decreases buffered.len(),
{
    if buffered.len() == 0 {
        0
    } else {
        buffered_bytes(buffered.drop_last()) + groups::values_bytes(buffered.last().values)
            + BUFFERED_EDGE_BYTES as nat
    }
}

/// Once a page is not readable, more pages do not change that.
proof fn lemma_pages_unreadable(
    store: Map<u64, GroupView>,
    ids: Seq<u64>,
    types: Seq<types::LogicalType>,
    at: int,
)
    requires
        0 <= at <= ids.len(),
        pages_bytes(store, ids.subrange(0, at), types) is None,
    ensures
        pages_bytes(store, ids, types) is None,
    decreases ids.len() - at,
{
    if at == ids.len() {
        assert(ids.subrange(0, at) =~= ids);
    } else {
        let longer = ids.subrange(0, at + 1);
        assert(longer.drop_last() =~= ids.subrange(0, at));
        lemma_pages_unreadable(store, ids, types, at + 1);
    }
}

fn pages_tally(store: &GroupStore, ids: &Vec<u64>, types: &Vec<types::LogicalType>) -> (result:
    DevonResult<Tally>)
    requires
        store.wf(),
    ensures
        match result {
            Ok(total) => total.wf() && pages_bytes(store@, ids@, types@) == Some(total@),
            Err(error) => pages_bytes(store@, ids@, types@) is None && error.kind_of()
                == ErrorKind::Corrupt,
        },
{
    let mut total: Tally = Tally::of(0);
    let mut i: usize = 0;
    assert(ids@.subrange(0, 0) =~= Seq::empty());
    while i < ids.len()
        invariant
            i <= ids@.len(),
            store.wf(),
            total.wf(),
            pages_bytes(store@, ids@.subrange(0, i as int), types@) == Some(total@),
        decreases ids@.len() - i,
    {
        proof {
            let next = ids@.subrange(0, i + 1);
            assert(next.drop_last() =~= ids@.subrange(0, i as int));
            assert(next.last() == ids@[i as int]);
        }
        if ids[i] != 0 {
            match store.read_checked(ids[i], types, u64::MAX) {
                Ok(csr) => {
                    let (edges, _bytes): (Tally, Tally) = csr.tally();
                    total = total.plus(&csr.both_forms()).plus(&edges.times(SCANNED_EDGE_BYTES));
                },
                Err(error) => {
                    proof {
                        lemma_pages_unreadable(store@, ids@, types@, i + 1);
                    }
                    return Err(error);
                },
            }
        }
        i += 1;
    }
    assert(ids@.subrange(0, ids@.len() as int) =~= ids@);
    Ok(total)
}

impl RelTable {
    /// Merges every buffered edge into the stored groups of both sides.
    pub fn checkpoint(&mut self, store: &mut GroupStore, catalog: &mut Catalog) -> (result:
        DevonResult<()>)
        requires
            old(self).wf(),
            old(store).wf(),
        ensures
            final(self).wf(),
            final(store).wf(),
            match (
                result,
                checkpoint_of(old(store)@, old(store).next_of(), old(catalog)@, old(self)@),
            ) {
                (Ok(()), Ok(after)) => {
                    &&& final(store)@ == after.store
                    &&& final(store).next_of() == after.next
                    &&& final(catalog)@ == after.catalog
                    &&& final(self)@ == (TableView { edges: Seq::empty(), ..old(self)@ })
                },
                (Err(error), Err(kind)) => {
                    &&& error.kind_of() == kind
                    &&& merge::extends(old(store)@, final(store)@)
                    &&& final(catalog)@ == old(catalog)@
                    &&& final(self)@ == old(self)@
                },
                _ => false,
            },
    {
        let ghost before = self@;
        if self.buffered_edges.len() == 0 {
            assert(self@ =~= TableView { edges: Seq::empty(), ..before });
            return Ok(());
        }
        match ensure_catalog_schema(&self.schema, catalog) {
            Ok(()) => {},
            Err(error) => {
                return Err(error);
            },
        }
        let from_layout: EndpointLayout = match endpoint_layout(
            store,
            catalog,
            self.schema.from.as_str(),
        ) {
            Ok(layout) => layout,
            Err(error) => {
                return Err(error);
            },
        };
        let to_layout: EndpointLayout = match endpoint_layout(
            store,
            catalog,
            self.schema.to.as_str(),
        ) {
            Ok(layout) => layout,
            Err(error) => {
                return Err(error);
            },
        };
        match validate_buffered_offsets(&self.buffered_edges, &from_layout, &to_layout) {
            Ok(()) => {},
            Err(error) => {
                return Err(error);
            },
        }
        let (mut out, mut into): (Side, Side) = match sides_from(
            catalog,
            &self.schema,
            from_layout,
            to_layout,
        ) {
            Ok(sides) => sides,
            Err(error) => {
                return Err(error);
            },
        };
        let ghost sides = SidesView { out: out@, into: into@ };
        proof {
            assert forall|i: int| 0 <= i < self.buffered_edges@.len() implies groups::values_fit(
                sides.out.types,
                (#[trigger] edges::relationships(self.buffered_edges@)[i]).values,
            ) by {
                lemma_values_fit(before.schema.columns, before.edges[i].values);
            }
        }
        let ghost first = store@;
        match merge_direction(store, &mut out, &self.buffered_edges, Direction::Out) {
            Ok(()) => {},
            Err(error) => {
                return Err(error);
            },
        }
        let ghost middle = store@;
        match merge_direction(store, &mut into, &self.buffered_edges, Direction::In) {
            Ok(()) => {},
            Err(error) => {
                assert(merge::extends(first, store@)) by {
                    assert forall|id: u64| #[trigger] first.dom().contains(id) implies
                        store@.dom().contains(id) && store@[id] == first[id] by {
                        assert(middle.dom().contains(id));
                    }
                }
                return Err(error);
            },
        }
        let storage = RelStorage { fwd: out.ids, bwd: into.ids };
        match catalog.set_rel_storage(self.schema.name.as_str(), storage) {
            Ok(()) => {},
            Err(error) => {
                return Err(error);
            },
        }
        self.buffered_edges = Vec::new();
        assert(self@ =~= TableView { edges: Seq::empty(), ..before });
        Ok(())
    }

    /// Conservatively sizes a complete property adjacency of the table.
    pub fn property_neighbors_working_set_bytes(
        &self,
        store: &GroupStore,
        catalog: &Catalog,
        source_rows: usize,
    ) -> (result: DevonResult<usize>)
        requires
            store.wf(),
        ensures
            match (result, working_set(store@, catalog@, self@, source_rows as nat)) {
                (Ok(bytes), Some(total)) => bytes == total,
                (Err(error), Some(total)) => total > usize::MAX && error.kind_of()
                    == ErrorKind::Corrupt,
                (Err(error), None) => error.kind_of() == ErrorKind::Corrupt,
                _ => false,
            },
    {
        let types = self.schema.types();
        let mut ids: Vec<u64> = Vec::new();
        let ghost shown = catalog::ids_of(catalog@, self@.schema.name);
        match catalog.rel_storage(self.schema.name.as_str()) {
            Some(storage) => {
                ids = duplicate_ids(&storage.fwd);
                let mut i: usize = 0;
                assert(ids@ =~= shown.fwd + shown.bwd.subrange(0, 0));
                while i < storage.bwd.len()
                    invariant
                        i <= storage.bwd@.len(),
                        storage.bwd@ == shown.bwd,
                        ids@ == shown.fwd + shown.bwd.subrange(0, i as int),
                    decreases storage.bwd@.len() - i,
                {
                    ids.push(storage.bwd[i]);
                    i += 1;
                    assert(ids@ =~= shown.fwd + shown.bwd.subrange(0, i as int));
                }
                assert(shown.bwd.subrange(0, shown.bwd.len() as int) =~= shown.bwd);
            },
            None => {
                assert(ids@ =~= shown.fwd + shown.bwd);
            },
        }
        let pages: Tally = match pages_tally(store, &ids, &types) {
            Ok(pages) => pages,
            Err(error) => {
                return Err(error);
            },
        };
        let ghost all = self@.edges;
        let mut buffered: Tally = Tally::of(0);
        let mut i: usize = 0;
        assert(all.subrange(0, 0) =~= Seq::empty());
        while i < self.buffered_edges.len()
            invariant
                i <= self.buffered_edges@.len(),
                all == self@.edges,
                buffered.wf(),
                buffered@ == buffered_bytes(all.subrange(0, i as int)),
            decreases self.buffered_edges@.len() - i,
        {
            proof {
                let next = all.subrange(0, i + 1);
                assert(next.drop_last() =~= all.subrange(0, i as int));
                assert(next.last() == self.buffered_edges@[i as int]@);
            }
            buffered =
            buffered.plus(&values_tally(&self.buffered_edges[i].values)).plus(
                &Tally::of(BUFFERED_EDGE_BYTES),
            );
            i += 1;
        }
        assert(all.subrange(0, all.len() as int) =~= all);
        let rows: Tally = Tally::of(source_rows as u64).times(ADJACENCY_ROW_BYTES);
        let once: Tally = rows.plus(&pages).plus(&buffered);
        let total: Tally = once.times(4);
        match total.size() {
            Some(bytes) => Ok(bytes),
            None => Err(corrupt("relationship working set overflows")),
        }
    }
}

/// Whether a move covers the old rows of a table and gives the new ones.
pub open spec fn move_fits(remap: RemapView, old_counts: Seq<nat>, new_counts: Seq<nat>) -> bool {
    layout::total_rows(old_counts) <= remap.old_domain && layout::total_rows(new_counts)
        == remap.new_domain()
}

/// Whether all buffered edges are between rows that moves cover.
pub open spec fn offsets_covered(
    buffered: Seq<RelationshipView>,
    from_remap: RemapView,
    to_remap: RemapView,
) -> bool {
    forall|i: int|
        #![trigger buffered[i]]
        0 <= i < buffered.len() ==> buffered[i].from < from_remap.old_domain && buffered[i].to
            < to_remap.old_domain
}

/// Everything that a checkpoint with moved offsets reads.
#[verifier::ext_equal]
pub struct RemapJob {
    pub store: Map<u64, GroupView>,
    pub next: u64,
    pub old_catalog: CatalogView,
    pub new_catalog: CatalogView,
    pub table: TableView,
    pub from_remap: RemapView,
    pub to_remap: RemapView,
    pub charged: nat,
    pub limit: nat,
}

/// The row counts of a table's endpoints before and behind a checkpoint.
#[verifier::ext_equal]
pub struct EndCounts {
    pub old_from: Seq<nat>,
    pub old_to: Seq<nat>,
    pub new_from: Seq<nat>,
    pub new_to: Seq<nat>,
}

impl RemapJob {
    /// Whether there is nothing to do.
    pub open spec fn is_idle(self) -> bool {
        &&& self.table.edges.len() == 0
        &&& self.table.gone == TombstonesView::none()
        &&& self.from_remap.deleted.len() == 0
        &&& self.to_remap.deleted.len() == 0
    }

    /// The row counts of the endpoints, or the kind of error that finding or
    /// checking them gives.
    pub open spec fn counts(self) -> Result<EndCounts, ErrorKind> {
        let old_from = layout::layout_of(self.store, self.old_catalog, self.table.schema.from);
        let old_to = layout::layout_of(self.store, self.old_catalog, self.table.schema.to);
        let new_from = layout::layout_of(self.store, self.new_catalog, self.table.schema.from);
        let new_to = layout::layout_of(self.store, self.new_catalog, self.table.schema.to);
        match rel_table::schema_fault(self.old_catalog, self.table.schema) {
            Some(kind) => Err(kind),
            None => match rel_table::schema_fault(self.new_catalog, self.table.schema) {
                Some(kind) => Err(kind),
                None => match (old_from, old_to, new_from, new_to) {
                    (Err(kind), _, _, _) => Err(kind),
                    (_, Err(kind), _, _) => Err(kind),
                    (_, _, Err(kind), _) => Err(kind),
                    (_, _, _, Err(kind)) => Err(kind),
                    (Ok(old_from), Ok(old_to), Ok(new_from), Ok(new_to)) => {
                        let ids = catalog::ids_of(self.old_catalog, self.table.schema.name);
                        if move_fits(self.from_remap, old_from, new_from) && move_fits(
                            self.to_remap,
                            old_to,
                            new_to,
                        ) && offsets_covered(self.table.edges, self.from_remap, self.to_remap)
                            && ids.fwd.len() <= old_from.len() && ids.bwd.len() <= old_to.len() {
                            Ok(EndCounts { old_from, old_to, new_from, new_to })
                        } else {
                            Err(ErrorKind::Corrupt)
                        }
                    },
                },
            },
        }
    }

    /// The old sides.
    pub open spec fn old_sides(self, counts: EndCounts) -> SidesView {
        rel_table::sides_with(
            self.table.schema,
            catalog::ids_of(self.old_catalog, self.table.schema.name),
            counts.old_from,
            counts.old_to,
        )
    }

    /// The buffered edges where they move.
    pub open spec fn overlay(self) -> Seq<RelationshipView> {
        rewrite::carried_edges(
            self.table.edges,
            self.table.gone,
            self.from_remap,
            self.to_remap,
        )
    }

    /// The rewrite of the outgoing side.
    pub open spec fn out_job(self, counts: EndCounts) -> JobView {
        JobView {
            old: self.old_sides(counts).out,
            new_counts: counts.new_from,
            near: self.from_remap,
            far: self.to_remap,
            gone: self.table.gone,
            direction: Direction::Out,
            overlay: self.overlay(),
            relationship: self.table.schema.name,
            charged: self.charged,
            limit: self.limit,
        }
    }

    /// The rewrite of the incoming side.
    pub open spec fn into_job(self, counts: EndCounts) -> JobView {
        JobView {
            old: self.old_sides(counts).into,
            new_counts: counts.new_to,
            near: self.to_remap,
            far: self.from_remap,
            gone: self.table.gone,
            direction: Direction::In,
            overlay: self.overlay(),
            relationship: self.table.schema.name,
            charged: self.charged,
            limit: self.limit,
        }
    }

    /// The rewrite of both sides, outgoing first.
    pub open spec fn rewritten(self, counts: EndCounts) -> Result<(MergeView, MergeView), Fault> {
        match rewrite::rewrite(
            MergeView { store: self.store, next: self.next, ids: Seq::empty() },
            self.out_job(counts),
            0,
        ) {
            Err(fault) => Err(fault),
            Ok(out) => match rewrite::rewrite(
                MergeView { store: out.store, next: out.next, ids: Seq::empty() },
                self.into_job(counts),
                0,
            ) {
                Err(fault) => Err(fault),
                Ok(into) => Ok((out, into)),
            },
        }
    }

    /// What the checkpoint leaves, or what stops it.
    pub open spec fn outcome(self) -> Result<CheckpointView, Fault> {
        if self.is_idle() {
            Ok(
                CheckpointView {
                    store: self.store,
                    next: self.next,
                    catalog: self.new_catalog,
                },
            )
        } else {
            match self.counts() {
                Err(kind) => Err(Fault::Kind(kind)),
                Ok(counts) => match self.rewritten(counts) {
                    Err(fault) => Err(fault),
                    Ok((out, into)) => Ok(
                        CheckpointView {
                            store: into.store,
                            next: into.next,
                            catalog: catalog::with_rel_storage(
                                self.new_catalog,
                                self.table.schema.name,
                                RelStorageView {
                                    fwd: rewrite::trimmed(out.ids),
                                    bwd: rewrite::trimmed(into.ids),
                                },
                            ),
                        },
                    ),
                },
            }
        }
    }
}

/// The catalog with at most this table stored elsewhere.
pub open spec fn only_storage_of(before: CatalogView, after: CatalogView, name: Seq<char>) -> bool {
    after == before || exists|storage: RelStorageView| #[trigger]
        catalog::with_rel_storage(before, name, storage) == after
}

fn validate_remap_layout(
    remap: &OffsetRemap,
    old_layout: &EndpointLayout,
    new_layout: &EndpointLayout,
    table: &str,
) -> (result: DevonResult<()>)
    requires
        remap.wf(),
        old_layout.wf(),
        new_layout.wf(),
    ensures
        match result {
            Ok(()) => move_fits(remap@, old_layout@, new_layout@),
            Err(error) => !move_fits(remap@, old_layout@, new_layout@) && error.kind_of()
                == ErrorKind::Corrupt,
        },
{
    if old_layout.total() > remap.old_domain() {
        let head: String = with_name("node table `", table, "` checkpointed rows ");
        let middle: String = with_number(
            head.as_str(),
            old_layout.total(),
            " exceed old remap domain ",
        );
        return Err(corrupt(with_number(middle.as_str(), remap.old_domain(), "").as_str()));
    }
    let expected: u64 = match remap.new_domain() {
        Ok(expected) => expected,
        Err(error) => {
            return Err(error);
        },
    };
    if new_layout.total() != expected {
        let head: String = with_name("node table `", table, "` remap produces ");
        let middle: String = with_number(
            head.as_str(),
            expected,
            " rows but replacement storage has ",
        );
        return Err(corrupt(with_number(middle.as_str(), new_layout.total(), "").as_str()));
    }
    Ok(())
}

/// Moved buffered edges have the property types.
proof fn lemma_overlay_fits(job: RemapJob, counts: EndCounts)
    requires
        rel_table::edges_fit(job.table.schema, job.table.edges),
        job.from_remap.wf(),
        job.to_remap.wf(),
        job.counts() == Ok::<EndCounts, ErrorKind>(counts),
    ensures
        job.out_job(counts).wf(),
        job.into_job(counts).wf(),
        job.out_job(counts).moves_between(),
        job.into_job(counts).moves_between(),
{
    let overlay = job.overlay();
    let kinds = schema::types_of(job.table.schema.columns);
    assert forall|i: int|
        #![trigger overlay[i]]
        0 <= i < overlay.len() implies groups::values_fit(kinds, overlay[i].values)
        && overlay[i].from < job.from_remap.new_domain() && overlay[i].to
        < job.to_remap.new_domain() by {
        rewrite::lemma_carried_edges_lawful(
            job.table.edges,
            job.table.gone,
            job.from_remap,
            job.to_remap,
            i,
        );
        let k = choose|k: int|
            0 <= k < job.table.edges.len() && job.table.edges[k].values == overlay[i].values;
        assert(schema::row_fits(job.table.schema.columns, job.table.edges[k].values));
        lemma_values_fit(job.table.schema.columns, job.table.edges[k].values);
    }
}

impl RelTable {
    /// Rewrites the stored groups of both sides for moved node offsets.
    ///
    /// Old groups are read through `old_catalog`; new page ids go into the
    /// unpublished `new_catalog`. Each new group is charged while it is
    /// built, and a group that says the same as the old one at its place
    /// keeps that page.
    pub fn checkpoint_with_remap(
        &mut self,
        store: &mut GroupStore,
        old_catalog: &Catalog,
        new_catalog: &mut Catalog,
        from_remap: &OffsetRemap,
        to_remap: &OffsetRemap,
        budget: &mut MemoryBudget,
    ) -> (result: DevonResult<()>)
        requires
            old(self).wf(),
            old(store).wf(),
            from_remap.wf(),
            to_remap.wf(),
        ensures
            final(self).wf(),
            final(store).wf(),
            final(budget).charged_of() == old(budget).charged_of(),
            final(budget).limit_of() == old(budget).limit_of(),
            ({
                let job = RemapJob {
                    store: old(store)@,
                    next: old(store).next_of(),
                    old_catalog: old_catalog@,
                    new_catalog: old(new_catalog)@,
                    table: old(self)@,
                    from_remap: from_remap@,
                    to_remap: to_remap@,
                    charged: old(budget).charged_of(),
                    limit: old(budget).limit_of(),
                };
                match (result, job.outcome()) {
                    (Ok(()), Ok(after)) => {
                        &&& final(store)@ == after.store
                        &&& final(store).next_of() == after.next
                        &&& final(new_catalog)@ == after.catalog
                        &&& final(self)@ == (TableView {
                            edges: Seq::empty(),
                            gone: TombstonesView::none(),
                            ..old(self)@
                        })
                    },
                    (Err(error), Err(fault)) => {
                        &&& rewrite::tells(error, fault)
                        &&& merge::extends(old(store)@, final(store)@)
                        &&& only_storage_of(
                            old(new_catalog)@,
                            final(new_catalog)@,
                            old(self)@.schema.name,
                        )
                        &&& final(self)@ == old(self)@
                    },
                    _ => false,
                }
            }),
    {
        let ghost before = self@;
        let ghost first = store@;
        let ghost job = RemapJob {
            store: store@,
            next: store.next_of(),
            old_catalog: old_catalog@,
            new_catalog: new_catalog@,
            table: self@,
            from_remap: from_remap@,
            to_remap: to_remap@,
            charged: budget.charged_of(),
            limit: budget.limit_of(),
        };
        if self.buffered_edges.len() == 0 && self.endpoint_tombstones.is_empty()
            && from_remap.is_identity() && to_remap.is_identity() {
            assert(self@ =~= TableView {
                edges: Seq::empty(),
                gone: TombstonesView::none(),
                ..before
            });
            return Ok(());
        }
        match ensure_catalog_schema(&self.schema, old_catalog) {
            Ok(()) => {},
            Err(error) => {
                return Err(error);
            },
        }
        match ensure_catalog_schema(&self.schema, new_catalog) {
            Ok(()) => {},
            Err(error) => {
                return Err(error);
            },
        }
        let old_from: EndpointLayout = match endpoint_layout(
            store,
            old_catalog,
            self.schema.from.as_str(),
        ) {
            Ok(layout) => layout,
            Err(error) => {
                return Err(error);
            },
        };
        let old_to: EndpointLayout = match endpoint_layout(
            store,
            old_catalog,
            self.schema.to.as_str(),
        ) {
            Ok(layout) => layout,
            Err(error) => {
                return Err(error);
            },
        };
        let new_from: EndpointLayout = match endpoint_layout(
            store,
            new_catalog,
            self.schema.from.as_str(),
        ) {
            Ok(layout) => layout,
            Err(error) => {
                return Err(error);
            },
        };
        let new_to: EndpointLayout = match endpoint_layout(
            store,
            new_catalog,
            self.schema.to.as_str(),
        ) {
            Ok(layout) => layout,
            Err(error) => {
                return Err(error);
            },
        };
        match validate_remap_layout(from_remap, &old_from, &new_from, self.schema.from.as_str()) {
            Ok(()) => {},
            Err(error) => {
                return Err(error);
            },
        }
        match validate_remap_layout(to_remap, &old_to, &new_to, self.schema.to.as_str()) {
            Ok(()) => {},
            Err(error) => {
                return Err(error);
            },
        }
        let overlay: Vec<ScannedRelationship> = match carry_edges(
            &self.buffered_edges,
            &self.endpoint_tombstones,
            from_remap,
            to_remap,
        ) {
            Ok(overlay) => overlay,
            Err(error) => {
                return Err(error);
            },
        };
        let ghost counts = EndCounts {
            old_from: old_from@,
            old_to: old_to@,
            new_from: new_from@,
            new_to: new_to@,
        };
        let (out, into): (Side, Side) = match sides_from(
            old_catalog,
            &self.schema,
            old_from,
            old_to,
        ) {
            Ok(sides) => sides,
            Err(error) => {
                return Err(error);
            },
        };
        proof {
            assert(job.counts() == Ok::<EndCounts, ErrorKind>(counts));
            lemma_overlay_fits(job, counts);
            catalog::lemma_rel_place(new_catalog@.rels, self.schema@.name, 0);
        }
        let mut fwd: Vec<u64> = Vec::new();
        let mut bwd: Vec<u64> = Vec::new();
        let out_run: DevonResult<()> = {
            let run = Job {
                old: &out,
                new_layout: &new_from,
                near: from_remap,
                far: to_remap,
                gone: &self.endpoint_tombstones,
                direction: Direction::Out,
                overlay: &overlay,
                relationship: self.schema.name.as_str(),
            };
            assert(run.under(*budget) =~= job.out_job(counts));
            run.run(store, budget, &mut fwd)
        };
        match out_run {
            Ok(()) => {},
            Err(error) => {
                if fwd.len() > 0 {
                    let partial = RelStorage { fwd, bwd: duplicate_ids(&into.ids) };
                    let _set: DevonResult<()> = new_catalog.set_rel_storage(
                        self.schema.name.as_str(),
                        partial,
                    );
                }
                return Err(error);
            },
        }
        let ghost middle = store@;
        let into_run: DevonResult<()> = {
            let run = Job {
                old: &into,
                new_layout: &new_to,
                near: to_remap,
                far: from_remap,
                gone: &self.endpoint_tombstones,
                direction: Direction::In,
                overlay: &overlay,
                relationship: self.schema.name.as_str(),
            };
            assert(run.under(*budget) =~= job.into_job(counts));
            run.run(store, budget, &mut bwd)
        };
        match into_run {
            Ok(()) => {},
            Err(error) => {
                proof {
                    assert forall|id: u64| #[trigger] first.dom().contains(id) implies
                        store@.dom().contains(id) && store@[id] == first[id] by {
                        assert(middle.dom().contains(id));
                    }
                }
                let held: Vec<u64> = if bwd.len() > 0 {
                    bwd
                } else {
                    duplicate_ids(&into.ids)
                };
                let partial = RelStorage { fwd, bwd: held };
                let _set: DevonResult<()> = new_catalog.set_rel_storage(
                    self.schema.name.as_str(),
                    partial,
                );
                return Err(error);
            },
        }
        match new_catalog.set_rel_storage(self.schema.name.as_str(), RelStorage { fwd, bwd }) {
            Ok(()) => {},
            Err(error) => {
                return Err(error);
            },
        }
        self.buffered_edges = Vec::new();
        self.endpoint_tombstones = RelEndpointTombstones::new();
        assert(self@ =~= TableView {
            edges: Seq::empty(),
            gone: TombstonesView::none(),
            ..before
        });
        Ok(())
    }
}

/// Nothing is hidden where no endpoint is gone.
proof fn lemma_all_visible(list: Seq<EdgeView>, direction: Direction, row: u64)
    ensures
        edges::visible(list, TombstonesView::none(), direction, row) == list,
    decreases list.len(),
{
    if list.len() > 0 {
        lemma_all_visible(list.drop_last(), direction, row);
        assert(list =~= list.drop_last().push(list.last()));
    }
}

/// One side of a surviving row's edges moves with it.
proof fn lemma_side_moved(
    before: RemapJob,
    job: JobView,
    start: MergeView,
    last: Map<u64, GroupView>,
    x: u64,
)
    requires
        before.from_remap.wf(),
        before.to_remap.wf(),
        job.wf(),
        job.moves_between(),
        job.direction == Direction::Out ==> job.near == before.from_remap && job.far
            == before.to_remap,
        job.direction == Direction::In ==> job.near == before.to_remap && job.far
            == before.from_remap,
        job.gone == before.table.gone,
        job.overlay == before.overlay(),
        start.ids.len() == 0,
        merge::fresh(start.store, start.next),
        merge::extends(before.store, start.store),
        rewrite::rewrite(start, job, 0) is Ok,
        merge::extends(rewrite::rewrite(start, job, 0)->Ok_0.store, last),
        job.near.survives(x),
        edges::seen(
            before.store,
            job.old,
            before.table.edges,
            before.table.gone,
            job.direction,
            x,
        ) is Ok,
    ensures
        edges::seen(
            last,
            job.new_side(rewrite::trimmed(rewrite::rewrite(start, job, 0)->Ok_0.ids)),
            Seq::empty(),
            TombstonesView::none(),
            job.direction,
            job.near.moved(x) as u64,
        ) == Ok::<Seq<EdgeView>, ErrorKind>(
            edges::carried(
                edges::seen(
                    before.store,
                    job.old,
                    before.table.edges,
                    before.table.gone,
                    job.direction,
                    x,
                )->Ok_0,
                job.far,
            ),
        ),
{
    let after = rewrite::rewrite(start, job, 0)->Ok_0;
    let side = job.new_side(after.ids);
    let short = job.new_side(rewrite::trimmed(after.ids));
    let y = job.near.moved(x) as u64;
    let own = edges::incident(before.table.edges, job.direction, x);
    remap::law_moved_is_a_row(job.near, x);
    rewrite::lemma_rewrite(start, job, 0);
    if edges::stored(before.store, job.old, x) is Ok {
        merge::lemma_stored_kept(before.store, start.store, job.old, job.old, x);
    }
    assert(rewrite::row_rewritten(start, job, 0, x));
    rewrite::lemma_carried_incident(
        before.table.edges,
        before.table.gone,
        before.from_remap,
        before.to_remap,
        job.direction,
        x,
    );
    let moved = rewrite::moved_edges(job, start.store, x) + edges::incident(
        job.overlay,
        job.direction,
        y,
    );
    assert(edges::stored(after.store, side, y) == Ok::<Seq<EdgeView>, ErrorKind>(moved));
    assert forall|h: int|
        layout::group_of(side.counts, y as int) == Some(h) implies edges::id_at(side.ids, h)
        == edges::id_at(short.ids, h) by {
        rewrite::lemma_trimmed(after.ids, h);
    }
    merge::lemma_stored_kept(after.store, last, side, short, y);
    lemma_all_visible(moved, job.direction, y);
    assert(edges::incident(Seq::<RelationshipView>::empty(), job.direction, y)
        =~= Seq::<EdgeView>::empty());
    assert(moved + Seq::<EdgeView>::empty() =~= moved);
    if edges::is_gone(job.gone, job.direction, x) {
        edges::lemma_gone_row(own, job.gone, job.direction, x);
        if edges::stored(start.store, job.old, x) is Ok {
            edges::lemma_gone_row(
                edges::stored(start.store, job.old, x)->Ok_0,
                job.gone,
                job.direction,
                x,
            );
        }
        assert(moved =~= Seq::<EdgeView>::empty());
    } else {
        let held = edges::stored(before.store, job.old, x)->Ok_0;
        edges::lemma_visible_joined(held, own, job.gone, job.direction, x);
        edges::lemma_carried_joined(
            edges::visible(held, job.gone, job.direction, x),
            edges::visible(own, job.gone, job.direction, x),
            job.far,
        );
    }
}

/// A checkpoint with moved offsets carries every surviving row's edges to
/// where the row moves: those that were visible and whose neighbour
/// survives, with the neighbour where it moves, in their order.
pub proof fn law_remap_carries_adjacency(job: RemapJob, direction: Direction, x: u64)
    requires
        rel_table::edges_fit(job.table.schema, job.table.edges),
        merge::fresh(job.store, job.next),
        job.from_remap.wf(),
        job.to_remap.wf(),
        !job.is_idle(),
        job.outcome() is Ok,
        direction == Direction::Out || direction == Direction::In,
        direction == Direction::Out ==> job.from_remap.survives(x),
        direction == Direction::In ==> job.to_remap.survives(x),
        rel_table::adjacency(job.store, job.old_catalog, job.table, direction, x) is Ok,
    ensures
        ({
            let after = job.outcome()->Ok_0;
            let near = if direction == Direction::Out {
                job.from_remap
            } else {
                job.to_remap
            };
            let far = if direction == Direction::Out {
                job.to_remap
            } else {
                job.from_remap
            };
            let (out, into) = rel_table::adjacency(
                job.store,
                job.old_catalog,
                job.table,
                direction,
                x,
            )->Ok_0;
            rel_table::adjacency(
                after.store,
                after.catalog,
                (TableView { edges: Seq::empty(), gone: TombstonesView::none(), ..job.table }),
                direction,
                near.moved(x) as u64,
            ) == Ok::<(Seq<EdgeView>, Seq<EdgeView>), ErrorKind>(
                (edges::carried(out, far), edges::carried(into, far)),
            )
        }),
{
    let counts = job.counts()->Ok_0;
    let (out, into) = job.rewritten(counts)->Ok_0;
    let after = job.outcome()->Ok_0;
    let start = MergeView { store: job.store, next: job.next, ids: Seq::empty() };
    let middle = MergeView { store: out.store, next: out.next, ids: Seq::empty() };
    let out_job = job.out_job(counts);
    let into_job = job.into_job(counts);
    lemma_overlay_fits(job, counts);
    rewrite::lemma_rewrite(start, out_job, 0);
    rewrite::lemma_rewrite(middle, into_job, 0);
    let storage = RelStorageView {
        fwd: rewrite::trimmed(out.ids),
        bwd: rewrite::trimmed(into.ids),
    };
    rewrite::lemma_trimmed(out.ids, 0);
    rewrite::lemma_trimmed(into.ids, 0);
    catalog::law_rel_storage_reads_back(job.new_catalog, job.table.schema.name, storage);
    assert(merge::extends(job.store, into.store)) by {
        assert forall|id: u64| #[trigger] job.store.dom().contains(id) implies
            into.store.dom().contains(id) && into.store[id] == job.store[id] by {
            assert(out.store.dom().contains(id));
        }
    }
    lemma_layout_kept(
        job.store,
        into.store,
        job.new_catalog,
        after.catalog,
        job.table.schema.from,
    );
    lemma_layout_kept(job.store, into.store, job.new_catalog, after.catalog, job.table.schema.to);
    let now = rel_table::sides_of(after.store, after.catalog, job.table.schema)->Ok_0;
    assert(now.out =~= out_job.new_side(rewrite::trimmed(out.ids)));
    assert(now.into =~= into_job.new_side(rewrite::trimmed(into.ids)));
    assert(rel_table::sides_of(job.store, job.old_catalog, job.table.schema) == Ok::<
        SidesView,
        ErrorKind,
    >(job.old_sides(counts)));
    if direction == Direction::Out {
        lemma_side_moved(job, out_job, start, into.store, x);
        assert(edges::carried(Seq::<EdgeView>::empty(), job.to_remap)
            =~= Seq::<EdgeView>::empty());
    } else {
        lemma_side_moved(job, into_job, middle, into.store, x);
        assert(edges::carried(Seq::<EdgeView>::empty(), job.from_remap)
            =~= Seq::<EdgeView>::empty());
    }
}

/// Whether two catalogs lead to the same stored sides of a table: they have its schema, the same
/// rows of its endpoints and the same storage of its edges.
pub open spec fn same_sides(
    store: Map<u64, GroupView>,
    a: CatalogView,
    b: CatalogView,
    schema: RelSchemaView,
) -> bool {
    &&& rel_table::schema_fault(a, schema) == rel_table::schema_fault(b, schema)
    &&& layout::layout_of(store, a, schema.from) == layout::layout_of(store, b, schema.from)
    &&& layout::layout_of(store, a, schema.to) == layout::layout_of(store, b, schema.to)
    &&& catalog::ids_of(a, schema.name) == catalog::ids_of(b, schema.name)
}

/// A checkpoint with nothing to do keeps every adjacency, across the two catalogs: no row moves, and
/// what the new catalog leads to is what the old one led to, in every direction. Where the rows of
/// the far side are all known to the remap, that is the old adjacency carried over.
pub proof fn law_idle_remap_keeps_adjacency(job: RemapJob, direction: Direction, x: u64)
    requires
        job.is_idle(),
        same_sides(job.store, job.old_catalog, job.new_catalog, job.table.schema),
    ensures
        job.outcome() is Ok,
        job.from_remap.moved(x) == x,
        job.to_remap.moved(x) == x,
        ({
            let after = job.outcome()->Ok_0;
            let before = rel_table::adjacency(
                job.store,
                job.old_catalog,
                job.table,
                direction,
                x,
            );
            &&& rel_table::adjacency(
                after.store,
                after.catalog,
                (TableView { edges: Seq::empty(), gone: TombstonesView::none(), ..job.table }),
                direction,
                x,
            ) == before
            &&& before matches Ok((out, into)) ==> {
                &&& leads_within(out, job.to_remap) ==> edges::carried(out, job.to_remap) == out
                &&& leads_within(into, job.from_remap) ==> edges::carried(into, job.from_remap)
                    == into
            }
        }),
{
    assert(job.table.edges =~= Seq::empty());
    assert(job.table == (TableView {
        edges: Seq::empty(),
        gone: TombstonesView::none(),
        ..job.table
    }));
    lemma_nothing_moves(job.from_remap, x);
    lemma_nothing_moves(job.to_remap, x);
    match rel_table::adjacency(job.store, job.old_catalog, job.table, direction, x) {
        Ok((out, into)) => {
            lemma_nothing_carried_away(out, job.to_remap);
            lemma_nothing_carried_away(into, job.from_remap);
        },
        Err(_) => {},
    }
}

/// Whether edges lead to rows that a remap knows.
pub open spec fn leads_within(list: Seq<EdgeView>, remap: RemapView) -> bool {
    forall|i: int| 0 <= i < list.len() ==> (#[trigger] list[i]).neighbor < remap.old_domain
}

proof fn lemma_nothing_moves(remap: RemapView, x: u64)
    requires
        remap.deleted.len() == 0,
    ensures
        remap.moved(x) == x,
{
    assert(remap.deleted =~= Seq::empty());
}

proof fn lemma_nothing_carried_away(list: Seq<EdgeView>, remap: RemapView)
    requires
        remap.deleted.len() == 0,
    ensures
        leads_within(list, remap) ==> edges::carried(list, remap) == list,
    decreases list.len(),
{
    if list.len() > 0 && leads_within(list, remap) {
        let edge = list.last();
        assert(leads_within(list.drop_last(), remap)) by {
            assert forall|i: int| 0 <= i < list.drop_last().len() implies (
            #[trigger] list.drop_last()[i]).neighbor < remap.old_domain by {
                assert(list[i].neighbor < remap.old_domain);
            }
        }
        lemma_nothing_carried_away(list.drop_last(), remap);
        assert(list[list.len() - 1].neighbor < remap.old_domain);
        lemma_nothing_moves(remap, edge.neighbor);
        assert(list.drop_last().push(edge) =~= list);
    } else if list.len() == 0 {
        assert(edges::carried(list, remap) =~= list);
    }
}

} // verus!
