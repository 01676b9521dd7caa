//! Walking all relationships of a table, one stored group at a time.

use vstd::prelude::*;

use crate::catalog;
use crate::catalog::{duplicate_ids, Catalog, CatalogView};
use crate::error::{corrupt, not_found, DevonResult, ErrorKind};
use crate::groups;
use crate::groups::{CsrGroup, EdgeView, GroupStore, GroupView};
use crate::overlay::TombstonesView;
use crate::picked;
use crate::rel_table;
use crate::rel_table::edges;
use crate::rel_table::edges::{
    edge_is_hidden, Direction, RelationshipView, ScannedRelationship,
};
use crate::rel_table::layout;
use crate::rel_table::layout::read_layout;
use crate::rel_table::{
    ensure_catalog_schema, more_rows_than_its_group, stored_group_id, RelTable, TableView,
};
use crate::schema;
use crate::text::with_name;
use crate::types::{duplicate_values, LogicalType};

verus! {

/// What a scan still gives: relationships, and the kind of error that ends
/// it, if one does.
#[verifier::ext_equal]
pub struct ScanView {
    pub rows: Seq<RelationshipView>,
    pub fault: Option<ErrorKind>,
}

/// The relationships of an adjacency group from an edge of a slot on;
/// `start` is the row of its first slot.
pub open spec fn flat(
    slots: Seq<Seq<EdgeView>>,
    start: int,
    slot: int,
    edge: int,
) -> Seq<RelationshipView>
    decreases slots.len() - slot, slots[slot].len() - edge,
{
    if slot < 0 || edge < 0 || slot >= slots.len() {
        Seq::empty()
    } else if edge >= slots[slot].len() {
        flat(slots, start, slot + 1, 0)
    } else {
        seq![
            RelationshipView {
                from: (start + slot) as u64,
                to: slots[slot][edge].neighbor,
                values: slots[slot][edge].values,
            },
        ] + flat(slots, start, slot, edge + 1)
    }
}

/// What is stored: the source table's groups, and the adjacency groups
/// beside them.
#[verifier::ext_equal]
pub struct BaseView {
    pub source_groups: Seq<u64>,
    pub source_columns: nat,
    pub fwd: Seq<u64>,
    pub types: Seq<LogicalType>,
    pub neighbor_rows: nat,
}

/// What a scan of the stored groups gives from one on; `start` is its first
/// row.
pub open spec fn base_scan(
    store: Map<u64, GroupView>,
    base: BaseView,
    group: nat,
    start: nat,
) -> ScanView
    decreases base.source_groups.len() - group,
{
    if group >= base.source_groups.len() {
        ScanView { rows: Seq::empty(), fault: None }
    } else {
        match groups::node_rows(store, base.source_groups[group as int], base.source_columns) {
            None => ScanView { rows: Seq::empty(), fault: Some(ErrorKind::Corrupt) },
            Some(rows) => if start + rows > u64::MAX {
                ScanView { rows: Seq::empty(), fault: Some(ErrorKind::Corrupt) }
            } else {
                match edges::id_at(base.fwd, group as int) {
                    None => base_scan(store, base, group + 1, start + rows),
                    Some(id) => match groups::csr_at(store, id, base.types, base.neighbor_rows) {
                        None => ScanView { rows: Seq::empty(), fault: Some(ErrorKind::Corrupt) },
                        Some(csr) => if csr.slots.len() > rows {
                            ScanView { rows: Seq::empty(), fault: Some(ErrorKind::Corrupt) }
                        } else {
                            let rest = base_scan(store, base, group + 1, start + rows);
                            ScanView {
                                rows: flat(csr.slots, start as int, 0, 0) + rest.rows,
                                fault: rest.fault,
                            }
                        },
                    },
                }
            },
        }
    }
}

/// The relationships that have no gone endpoint.
pub open spec fn unhidden(
    rows: Seq<RelationshipView>,
    gone: TombstonesView,
) -> Seq<RelationshipView>
    decreases rows.len(),
{
    if rows.len() == 0 {
        Seq::empty()
    } else {
        let rest = unhidden(rows.drop_first(), gone);
        if gone.hides(rows[0].from, rows[0].to) {
            rest
        } else {
            seq![rows[0]] + rest
        }
    }
}

/// A scan leaves out the relationships that have a gone source or a gone destination, and no
/// others: those that it gives keep their order and number.
pub proof fn law_scan_hides_only_gone_ends(rows: Seq<RelationshipView>, gone: TombstonesView)
    ensures
        picked::keeps(
            unhidden(rows, gone),
            rows,
            |row: RelationshipView| !gone.from.contains(row.from) && !gone.to.contains(row.to),
        ),
    decreases rows.len(),
{
    let wanted = |row: RelationshipView|
        !gone.from.contains(row.from) && !gone.to.contains(row.to);
    let of = |row: RelationshipView|
        if wanted(row) {
            Some(row)
        } else {
            None
        };
    if rows.len() == 0 {
        picked::lemma_keeps_none(rows, wanted);
    } else {
        let rest = rows.drop_first();
        law_scan_hides_only_gone_ends(rest, gone);
        assert(rows =~= seq![rows[0]] + rest);
        picked::lemma_gives_before(unhidden(rest, gone), rest, of, rows[0]);
    }
}

/// The relationships of an adjacency group from one slot on: first those of its first slot, each
/// from that slot's row to its neighbour with its values, in order, then those of the slots behind
/// it.
pub proof fn law_scan_gives_every_edge(
    slots: Seq<Seq<EdgeView>>,
    start: int,
    slot: int,
    edge: int,
)
    requires
        0 <= slot < slots.len(),
        0 <= edge <= slots[slot].len(),
    ensures
        flat(slots, start, slot, edge) == Seq::new(
            (slots[slot].len() - edge) as nat,
            |k: int|
                RelationshipView {
                    from: (start + slot) as u64,
                    to: slots[slot][edge + k].neighbor,
                    values: slots[slot][edge + k].values,
                },
        ) + flat(slots, start, slot + 1, 0),
        flat(slots, start, slots.len() as int, 0).len() == 0,
    decreases slots[slot].len() - edge,
{
    let all = Seq::new(
        (slots[slot].len() - edge) as nat,
        |k: int|
            RelationshipView {
                from: (start + slot) as u64,
                to: slots[slot][edge + k].neighbor,
                values: slots[slot][edge + k].values,
            },
    );
    if edge < slots[slot].len() {
        law_scan_gives_every_edge(slots, start, slot, edge + 1);
    }
    assert(flat(slots, start, slot, edge) =~= all + flat(slots, start, slot + 1, 0));
}

/// What a scan gives that follows the stored relationships with the
/// buffered ones.
pub open spec fn followed(base: ScanView, buffered: Seq<RelationshipView>) -> ScanView {
    if base.fault is None {
        ScanView { rows: base.rows + buffered, fault: None }
    } else {
        base
    }
}

/// What a scan of a table gives, or the kind of error that beginning it
/// gives.
pub open spec fn scan_of(
    store: Map<u64, GroupView>,
    catalog: CatalogView,
    table: TableView,
) -> Result<ScanView, ErrorKind> {
    match base_of(store, catalog, table) {
        Err(kind) => Err(kind),
        Ok(base) => {
            let all = followed(base_scan(store, base, 0, 0), table.edges);
            Ok(ScanView { rows: unhidden(all.rows, table.gone), fault: all.fault })
        },
    }
}

/// What of a table is stored, or the kind of error that finding it gives.
pub open spec fn base_of(
    store: Map<u64, GroupView>,
    catalog: CatalogView,
    table: TableView,
) -> Result<BaseView, ErrorKind> {
    match rel_table::schema_fault(catalog, table.schema) {
        Some(kind) => Err(kind),
        None => match (
            catalog::node_of(catalog, table.schema.from),
            catalog::node_of(catalog, table.schema.to),
        ) {
            (Some(source), Some(destination)) => {
                let ids = catalog::ids_of(catalog, table.schema.name);
                let counts = layout::counts_of(
                    store,
                    destination.schema.columns.len(),
                    destination.groups,
                );
                if ids.fwd.len() <= source.groups.len() && ids.bwd.len()
                    <= destination.groups.len() && layout::readable(
                    store,
                    destination.schema.columns.len(),
                    destination.groups,
                ) && layout::total_rows(counts) <= u64::MAX {
                    Ok(
                        BaseView {
                            source_groups: source.groups,
                            source_columns: source.schema.columns.len(),
                            fwd: ids.fwd,
                            types: schema::types_of(table.schema.columns),
                            neighbor_rows: layout::total_rows(counts),
                        },
                    )
                } else {
                    Err(ErrorKind::Corrupt)
                }
            },
            _ => Err(ErrorKind::NotFound),
        },
    }
}

/// A walk over the stored relationships of a table, then the buffered ones.
pub struct RelScanCursor<'a> {
    table: &'a RelTable,
    store: &'a GroupStore,
    source_groups: Vec<u64>,
    fwd_groups: Vec<u64>,
    source_columns: usize,
    neighbor_rows: u64,
    types: Vec<LogicalType>,
    group_index: usize,
    next_group_start: u64,
    group_start: u64,
    group: Option<&'a CsrGroup>,
    slot: usize,
    edge_index: usize,
    buffered_index: usize,
    finished: bool,
}

impl<'a> RelScanCursor<'a> {
    spec fn base(self) -> BaseView {
        BaseView {
            source_groups: self.source_groups@,
            source_columns: self.source_columns as nat,
            fwd: self.fwd_groups@,
            types: self.types@,
            neighbor_rows: self.neighbor_rows as nat,
        }
    }

    spec fn in_group(self) -> Seq<RelationshipView> {
        match self.group {
            Some(group) => flat(
                group@.slots,
                self.group_start as int,
                self.slot as int,
                self.edge_index as int,
            ),
            None => Seq::empty(),
        }
    }

    spec fn stored_rest(self) -> ScanView {
        let rest = base_scan(
            self.store@,
            self.base(),
            self.group_index as nat,
            self.next_group_start as nat,
        );
        ScanView { rows: self.in_group() + rest.rows, fault: rest.fault }
    }

    spec fn buffered_rest(self) -> Seq<RelationshipView> {
        self.table@.edges.subrange(self.buffered_index as int, self.table@.edges.len() as int)
    }

    spec fn all_rest(self) -> ScanView {
        followed(self.stored_rest(), self.buffered_rest())
    }

    /// The cursor stands inside its table.
    pub closed spec fn wf(self) -> bool {
        &&& self.store.wf()
        &&& self.group_index <= self.source_groups@.len()
        &&& self.buffered_index <= self.table@.edges.len()
        &&& self.group matches Some(group) ==> self.group_start + group@.slots.len() <= u64::MAX
            && self.slot <= group@.slots.len()
    }

    /// What the walk still gives.
    pub closed spec fn rest(self) -> ScanView {
        if self.finished {
            ScanView { rows: Seq::empty(), fault: None }
        } else {
            let all = self.all_rest();
            ScanView { rows: unhidden(all.rows, self.table@.gone), fault: all.fault }
        }
    }

    /// The same walk over the same table.
    spec fn same_walk(self, other: RelScanCursor<'a>) -> bool {
        &&& self.table == other.table
        &&& self.store == other.store
        &&& self.base() == other.base()
        &&& self.finished == other.finished
    }

    /// Begins a walk.
    pub fn new(table: &'a RelTable, store: &'a GroupStore, catalog: &Catalog) -> (result:
        DevonResult<RelScanCursor<'a>>)
        requires
            store.wf(),
        ensures
            match (result, scan_of(store@, catalog@, table@)) {
                (Ok(cursor), Ok(scan)) => cursor.wf() && cursor.rest() == scan,
                (Err(error), Err(kind)) => error.kind_of() == kind,
                _ => false,
            },
    {
        let schema = table.schema();
        match ensure_catalog_schema(schema, catalog) {
            Ok(()) => {},
            Err(error) => {
                return Err(error);
            },
        }
        let (source_columns, source_groups): (usize, Vec<u64>) = match (
            catalog.node_table(schema.from.as_str()),
            catalog.table_groups(schema.from.as_str()),
        ) {
            (Some(source), Some(ids)) => (source.columns.len(), duplicate_ids(ids)),
            _ => {
                return Err(
                    not_found(with_name("node table `", schema.from.as_str(), "`").as_str()),
                );
            },
        };
        let (destination_columns, destination_groups): (usize, Vec<u64>) = match (
            catalog.node_table(schema.to.as_str()),
            catalog.table_groups(schema.to.as_str()),
        ) {
            (Some(destination), Some(ids)) => (destination.columns.len(), duplicate_ids(ids)),
            _ => {
                return Err(not_found(with_name("node table `", schema.to.as_str(), "`").as_str()));
            },
        };
        let (fwd_groups, bwd_count): (Vec<u64>, usize) = match catalog.rel_storage(
            schema.name.as_str(),
        ) {
            Some(storage) => (duplicate_ids(&storage.fwd), storage.bwd.len()),
            None => (Vec::new(), 0),
        };
        if fwd_groups.len() > source_groups.len() {
            return Err(
                corrupt("relationship forward storage has more groups than its source table"),
            );
        }
        if bwd_count > destination_groups.len() {
            return Err(
                corrupt(
                    "relationship backward storage has more groups than its destination table",
                ),
            );
        }
        let neighbor_rows: u64 = match read_layout(
            store,
            destination_columns,
            &destination_groups,
            schema.to.as_str(),
        ) {
            Ok(destination) => destination.total(),
            Err(error) => {
                return Err(error);
            },
        };
        let cursor = RelScanCursor {
            table,
            store,
            source_groups,
            fwd_groups,
            source_columns,
            neighbor_rows,
            types: schema.types(),
            group_index: 0,
            next_group_start: 0,
            group_start: 0,
            group: None,
            slot: 0,
            edge_index: 0,
            buffered_index: 0,
            finished: false,
        };
        proof {
            let base = base_of(store@, catalog@, table@)->Ok_0;
            assert(cursor.base() =~= base);
            assert(cursor.stored_rest() =~= base_scan(store@, base, 0, 0));
            assert(cursor.buffered_rest() =~= table@.edges);
        }
        Ok(cursor)
    }

    fn next_group_edge(&mut self) -> (edge: Option<ScannedRelationship>)
        requires
            old(self).wf(),
        ensures
            final(self).wf(),
            final(self).same_walk(*old(self)),
            final(self).group_index == old(self).group_index,
            final(self).next_group_start == old(self).next_group_start,
            final(self).buffered_index == old(self).buffered_index,
            match edge {
                Some(edge) => old(self).in_group() == seq![edge@] + final(self).in_group(),
                None => old(self).in_group().len() == 0 && final(self).group is None,
            },
    {
        let group: &CsrGroup = match self.group {
            Some(group) => group,
            None => {
                return None;
            },
        };
        let ghost start = *self;
        while self.slot < group.row_count()
            invariant
                start == *old(self),
                self.wf(),
                self.same_walk(start),
                start.group == Some(group),
                self.group == Some(group),
                self.group_start == start.group_start,
                self.group_index == start.group_index,
                self.next_group_start == start.next_group_start,
                self.buffered_index == start.buffered_index,
                self.in_group() == start.in_group(),
            decreases group@.slots.len() - self.slot,
        {
            let slot: usize = self.slot;
            assert(group@.slots[slot as int] == groups::edges_of(group.slots@[slot as int]@));
            if self.edge_index < group.slots[slot].len() {
                let at: usize = self.edge_index;
                let edge = ScannedRelationship {
                    from: self.group_start + slot as u64,
                    to: group.slots[slot][at].neighbor,
                    values: duplicate_values(group.slots[slot][at].values.as_slice()),
                };
                assert(group@.slots[slot as int][at as int] == group.slots@[slot as int]@[at as int]@);
                self.edge_index = at + 1;
                proof {
                    let shown = RelationshipView {
                        from: (self.group_start + slot) as u64,
                        to: group@.slots[slot as int][at as int].neighbor,
                        values: group@.slots[slot as int][at as int].values,
                    };
                    assert(edge@ =~= shown);
                }
                return Some(edge);
            }
            self.slot = slot + 1;
            self.edge_index = 0;
        }
        self.group = None;
        None
    }

    fn load_next_group(&mut self) -> (result: DevonResult<bool>)
        requires
            old(self).wf(),
            old(self).group is None,
        ensures
            final(self).wf(),
            final(self).same_walk(*old(self)),
            final(self).buffered_index == old(self).buffered_index,
            match result {
                Ok(true) => {
                    &&& final(self).stored_rest() == old(self).stored_rest()
                    &&& final(self).group_index > old(self).group_index
                },
                Ok(false) => {
                    &&& old(self).stored_rest() == (ScanView { rows: Seq::empty(), fault: None })
                    &&& final(self).stored_rest() == old(self).stored_rest()
                    &&& final(self).group is None
                },
                Err(error) => old(self).stored_rest() == (ScanView {
                    rows: Seq::empty(),
                    fault: Some(error.kind_of()),
                }),
            },
    {
        let ghost start = *self;
        while self.group_index < self.source_groups.len()
            invariant
                start == *old(self),
                self.wf(),
                self.same_walk(start),
                self.group is None,
                self.group_index >= start.group_index,
                self.buffered_index == start.buffered_index,
                self.stored_rest() == start.stored_rest(),
            decreases self.source_groups@.len() - self.group_index,
        {
            let index: usize = self.group_index;
            let ghost here = *self;
            assert(self.stored_rest() =~= base_scan(
                self.store@,
                self.base(),
                index as nat,
                self.next_group_start as nat,
            ));
            let row_count: usize = match self.store.read_row_count(
                self.source_groups[index],
                self.source_columns,
                index,
            ) {
                Ok(rows) => rows,
                Err(error) => {
                    return Err(error);
                },
            };
            let next_start: u64 = match self.next_group_start.checked_add(row_count as u64) {
                Some(next) => next,
                None => {
                    return Err(corrupt("node row count exceeds u64::MAX"));
                },
            };
            let csr: Option<u64> = stored_group_id(&self.fwd_groups, index);
            match csr {
                None => {
                    self.group_start = self.next_group_start;
                    self.next_group_start = next_start;
                    self.group_index = index + 1;
                    assert(self.base() =~= here.base());
                    assert(self.stored_rest() =~= here.stored_rest());
                },
                Some(id) => {
                    let group: &'a CsrGroup = match self.store.read_checked(
                        id,
                        &self.types,
                        self.neighbor_rows,
                    ) {
                        Ok(group) => group,
                        Err(error) => {
                            return Err(error);
                        },
                    };
                    let rows: usize = group.row_count();
                    if rows > row_count {
                        return Err(more_rows_than_its_group(rows, row_count, index));
                    }
                    self.group_start = self.next_group_start;
                    self.next_group_start = next_start;
                    self.group_index = index + 1;
                    self.group = Some(group);
                    self.slot = 0;
                    self.edge_index = 0;
                    assert(self.base() =~= here.base());
                    assert(self.stored_rest() =~= here.stored_rest());
                    return Ok(true);
                },
            }
        }
        assert(self.stored_rest() =~= ScanView { rows: Seq::empty(), fault: None });
        Ok(false)
    }

    fn next_any(&mut self) -> (result: DevonResult<Option<ScannedRelationship>>)
        requires
            old(self).wf(),
        ensures
            final(self).wf(),
            final(self).same_walk(*old(self)),
            match result {
                Ok(Some(edge)) => {
                    &&& old(self).all_rest().rows == seq![edge@] + final(self).all_rest().rows
                    &&& final(self).all_rest().fault == old(self).all_rest().fault
                },
                Ok(None) => old(self).all_rest() == (ScanView { rows: Seq::empty(), fault: None }),
                Err(error) => old(self).all_rest() == (ScanView {
                    rows: Seq::empty(),
                    fault: Some(error.kind_of()),
                }),
            },
    {
        let ghost start = *self;
        loop
            invariant_except_break
                start == *old(self),
                self.wf(),
                self.same_walk(start),
                self.buffered_index == start.buffered_index,
                self.stored_rest() == start.stored_rest(),
            ensures
                start == *old(self),
                self.wf(),
                self.same_walk(start),
                self.buffered_index == start.buffered_index,
                start.stored_rest() == (ScanView { rows: Seq::empty(), fault: None }),
                self.stored_rest() == start.stored_rest(),
            decreases self.source_groups@.len() - self.group_index,
        {
            let ghost here = *self;
            match self.next_group_edge() {
                Some(edge) => {
                    proof {
                        assert(here.stored_rest().rows =~= seq![edge@] + self.stored_rest().rows);
                        assert(self.buffered_rest() =~= start.buffered_rest());
                        assert(start.all_rest().rows =~= seq![edge@] + self.all_rest().rows);
                    }
                    return Ok(Some(edge));
                },
                None => {},
            }
            assert(self.stored_rest() =~= here.stored_rest());
            match self.load_next_group() {
                Ok(more) => {
                    if !more {
                        break;
                    }
                },
                Err(error) => {
                    return Err(error);
                },
            }
        }
        if self.buffered_index < self.table.buffered_count() {
            let edge: ScannedRelationship = self.table.buffered_edge(self.buffered_index);
            let ghost here = *self;
            self.buffered_index = self.buffered_index + 1;
            proof {
                assert(self.base() =~= here.base());
                assert(self.stored_rest() =~= here.stored_rest());
                assert(here.buffered_rest() =~= seq![edge@] + self.buffered_rest());
                assert(start.all_rest().rows =~= here.buffered_rest());
                assert(self.all_rest().rows =~= self.buffered_rest());
            }
            Ok(Some(edge))
        } else {
            assert(start.all_rest() =~= ScanView { rows: Seq::empty(), fault: None });
            Ok(None)
        }
    }

    /// The next relationship that is visible; an error ends the walk.
    pub fn next(&mut self) -> (item: Option<DevonResult<ScannedRelationship>>)
        requires
            old(self).wf(),
        ensures
            final(self).wf(),
            match item {
                Some(Ok(edge)) => {
                    &&& old(self).rest().rows.len() > 0
                    &&& edge@ == old(self).rest().rows[0]
                    &&& final(self).rest() == (ScanView {
                        rows: old(self).rest().rows.drop_first(),
                        fault: old(self).rest().fault,
                    })
                },
                Some(Err(error)) => {
                    &&& old(self).rest() == (ScanView {
                        rows: Seq::empty(),
                        fault: Some(error.kind_of()),
                    })
                    &&& final(self).rest() == (ScanView { rows: Seq::empty(), fault: None })
                },
                None => {
                    &&& old(self).rest() == (ScanView { rows: Seq::empty(), fault: None })
                    &&& final(self).rest() == old(self).rest()
                },
            },
    {
        if self.finished {
            return None;
        }
        let ghost start = *self;
        loop
            invariant
                start == *old(self),
                self.wf(),
                self.same_walk(start),
                !self.finished,
                self.rest() == start.rest(),
            decreases self.all_rest().rows.len(),
        {
            let ghost here = *self;
            match self.next_any() {
                Ok(Some(edge)) => {
                    proof {
                        assert(here.all_rest().rows.drop_first() =~= self.all_rest().rows);
                        assert(here.all_rest().rows[0] == edge@);
                    }
                    if !edge_is_hidden(
                        self.table.tombstones(),
                        Direction::Out,
                        edge.from,
                        edge.to,
                    ) {
                        assert(start.rest().rows.drop_first() =~= self.rest().rows);
                        return Some(Ok(edge));
                    }
                },
                Ok(None) => {
                    self.finished = true;
                    return None;
                },
                Err(error) => {
                    self.finished = true;
                    return Some(Err(error));
                },
            }
        }
    }
}

impl RelTable {
    /// Begins a walk over all relationships.
    pub fn scan_cursor<'a>(&'a self, store: &'a GroupStore, catalog: &Catalog) -> (result:
        DevonResult<RelScanCursor<'a>>)
        requires
            store.wf(),
        ensures
            match (result, scan_of(store@, catalog@, self@)) {
                (Ok(cursor), Ok(scan)) => cursor.wf() && cursor.rest() == scan,
                (Err(error), Err(kind)) => error.kind_of() == kind,
                _ => false,
            },
    {
        RelScanCursor::new(self, store, catalog)
    }

    /// All relationships: the stored ones by source row, then the buffered
    /// ones.
    pub fn scan(&self, store: &GroupStore, catalog: &Catalog) -> (result: DevonResult<
        Vec<ScannedRelationship>,
    >)
        requires
            store.wf(),
        ensures
            match (result, scan_of(store@, catalog@, self@)) {
                (Ok(list), Ok(scan)) => scan.fault is None && edges::relationships(list@)
                    == scan.rows,
                (Err(error), Ok(scan)) => scan.fault == Some(error.kind_of()),
                (Err(error), Err(kind)) => error.kind_of() == kind,
                _ => false,
            },
    {
        let mut cursor: RelScanCursor<'_> = match self.scan_cursor(store, catalog) {
            Ok(cursor) => cursor,
            Err(error) => {
                return Err(error);
            },
        };
        let ghost scan = scan_of(store@, catalog@, self@)->Ok_0;
        let mut list: Vec<ScannedRelationship> = Vec::new();
        assert(edges::relationships(list@) + cursor.rest().rows =~= scan.rows);
        loop
            invariant_except_break
                cursor.wf(),
                scan_of(store@, catalog@, self@) == Ok::<ScanView, ErrorKind>(scan),
                edges::relationships(list@) + cursor.rest().rows == scan.rows,
                cursor.rest().fault == scan.fault,
            ensures
                scan_of(store@, catalog@, self@) == Ok::<ScanView, ErrorKind>(scan),
                edges::relationships(list@) == scan.rows,
                scan.fault is None,
            decreases cursor.rest().rows.len(),
        {
            let ghost shown = edges::relationships(list@);
            let ghost rest = cursor.rest().rows;
            match cursor.next() {
                Some(Ok(edge)) => {
                    list.push(edge);
                    proof {
                        assert(edges::relationships(list@) =~= shown.push(edge@));
                        assert(rest =~= seq![edge@] + cursor.rest().rows);
                        assert(edges::relationships(list@) + cursor.rest().rows =~= shown + rest);
                    }
                },
                Some(Err(error)) => {
                    return Err(error);
                },
                None => {
                    assert(shown + rest =~= shown);
                    break;
                },
            }
        }
        Ok(list)
    }
}

} // verus!
