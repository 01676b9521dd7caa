//! Edges: those of a row, those that are visible, and where they move.

use vstd::prelude::*;

use crate::error::ErrorKind;
use crate::groups;
use crate::groups::{CsrEdge, EdgeView, GroupView};
use crate::overlay::{RelEndpointTombstones, TombstonesView};
use crate::picked;
use crate::rel_table::layout;
use crate::rel_table::remap::RemapView;
use crate::types;
use crate::types::{duplicate_values, LogicalType, Value, ValueView};

verus! {

/// Which edges of a row to follow.
#[derive(Debug, Clone, Copy, PartialEq, Eq, Structural)]
pub enum Direction {
    /// From source to destination.
    Out,
    /// From destination to source.
    In,
    /// Outgoing, then incoming.
    Both,
}

/// One relationship.
#[derive(Debug)]
pub struct ScannedRelationship {
    /// The source row.
    pub from: u64,
    /// The destination row.
    pub to: u64,
    /// The property values in column order.
    pub values: Vec<Value>,
}

/// What a relationship says.
#[verifier::ext_equal]
pub struct RelationshipView {
    pub from: u64,
    pub to: u64,
    pub values: Seq<ValueView>,
}

impl View for ScannedRelationship {
    type V = RelationshipView;

    open spec fn view(&self) -> RelationshipView {
        RelationshipView { from: self.from, to: self.to, values: types::views(self.values@) }
    }
}

/// What relationships say.
pub open spec fn relationships(list: Seq<ScannedRelationship>) -> Seq<RelationshipView> {
    list.map_values(|relationship: ScannedRelationship| relationship@)
}

impl ScannedRelationship {
    /// A copy.
    pub fn duplicate(&self) -> (copy: ScannedRelationship)
        ensures
            copy@ == self@,
    {
        ScannedRelationship {
            from: self.from,
            to: self.to,
            values: duplicate_values(self.values.as_slice()),
        }
    }
}

/// The end that a direction groups edges by.
pub open spec fn near(edge: RelationshipView, direction: Direction) -> u64 {
    if direction == Direction::Out {
        edge.from
    } else {
        edge.to
    }
}

/// The other end.
pub open spec fn far(edge: RelationshipView, direction: Direction) -> u64 {
    if direction == Direction::Out {
        edge.to
    } else {
        edge.from
    }
}

/// The relationships at a row in one direction, as its edges.
pub open spec fn incident(
    edges: Seq<RelationshipView>,
    direction: Direction,
    row: u64,
) -> Seq<EdgeView>
    decreases edges.len(),
{
    if edges.len() == 0 {
        Seq::empty()
    } else {
        let before = incident(edges.drop_last(), direction, row);
        let edge = edges.last();
        if near(edge, direction) == row {
            before.push(EdgeView { neighbor: far(edge, direction), values: edge.values })
        } else {
            before
        }
    }
}

/// Whether an edge of a row has a gone endpoint.
pub open spec fn is_hidden(
    gone: TombstonesView,
    direction: Direction,
    row: u64,
    neighbor: u64,
) -> bool {
    if direction == Direction::Out {
        gone.hides(row, neighbor)
    } else {
        gone.hides(neighbor, row)
    }
}

/// Whether a row is a gone endpoint.
pub open spec fn is_gone(gone: TombstonesView, direction: Direction, row: u64) -> bool {
    if direction == Direction::Out {
        gone.from.contains(row)
    } else {
        gone.to.contains(row)
    }
}

/// The edges of a row that have no gone endpoint.
pub open spec fn visible(
    edges: Seq<EdgeView>,
    gone: TombstonesView,
    direction: Direction,
    row: u64,
) -> Seq<EdgeView>
    decreases edges.len(),
{
    if edges.len() == 0 {
        Seq::empty()
    } else {
        let before = visible(edges.drop_last(), gone, direction, row);
        if is_hidden(gone, direction, row, edges.last().neighbor) {
            before
        } else {
            before.push(edges.last())
        }
    }
}

/// The edges whose neighbour survives, with the neighbour where it moves.
pub open spec fn carried(edges: Seq<EdgeView>, remap: RemapView) -> Seq<EdgeView>
    decreases edges.len(),
{
    if edges.len() == 0 {
        Seq::empty()
    } else {
        let before = carried(edges.drop_last(), remap);
        let edge = edges.last();
        if remap.survives(edge.neighbor) {
            before.push(
                EdgeView { neighbor: remap.moved(edge.neighbor) as u64, values: edge.values },
            )
        } else {
            before
        }
    }
}

/// The edges that do not lead back to the row.
pub open spec fn without_loops(edges: Seq<EdgeView>, row: u64) -> Seq<EdgeView>
    decreases edges.len(),
{
    if edges.len() == 0 {
        Seq::empty()
    } else {
        let before = without_loops(edges.drop_last(), row);
        if edges.last().neighbor == row {
            before
        } else {
            before.push(edges.last())
        }
    }
}

/// The relationships at a row are those that begin there, or end there, in order and as often as
/// they were inserted; each leads to its other end.
pub proof fn law_incident_lists_every_edge(
    edges: Seq<RelationshipView>,
    direction: Direction,
    row: u64,
)
    ensures
        direction == Direction::Out ==> picked::gives(
            incident(edges, direction, row),
            edges,
            |edge: RelationshipView|
                if edge.from == row {
                    Some(EdgeView { neighbor: edge.to, values: edge.values })
                } else {
                    None
                },
        ),
        direction == Direction::In ==> picked::gives(
            incident(edges, direction, row),
            edges,
            |edge: RelationshipView|
                if edge.to == row {
                    Some(EdgeView { neighbor: edge.from, values: edge.values })
                } else {
                    None
                },
        ),
    decreases edges.len(),
{
    let out = |edge: RelationshipView|
        if edge.from == row {
            Some(EdgeView { neighbor: edge.to, values: edge.values })
        } else {
            None
        };
    let into = |edge: RelationshipView|
        if edge.to == row {
            Some(EdgeView { neighbor: edge.from, values: edge.values })
        } else {
            None
        };
    if edges.len() == 0 {
        picked::lemma_gives_none(edges, out);
        picked::lemma_gives_none(edges, into);
    } else {
        law_incident_lists_every_edge(edges.drop_last(), direction, row);
        assert(edges =~= edges.drop_last().push(edges.last()));
        let before = incident(edges.drop_last(), direction, row);
        if direction == Direction::Out {
            picked::lemma_gives_more(before, edges.drop_last(), out, edges.last());
        }
        if direction == Direction::In {
            picked::lemma_gives_more(before, edges.drop_last(), into, edges.last());
        }
    }
}

/// An edge of a row is seen unless its source is a gone source or its destination is a gone
/// destination; those that are seen keep their order and number.
pub proof fn law_visible_edges_have_both_ends(
    edges: Seq<EdgeView>,
    gone: TombstonesView,
    direction: Direction,
    row: u64,
)
    ensures
        direction == Direction::Out ==> picked::keeps(
            visible(edges, gone, direction, row),
            edges,
            |edge: EdgeView| !gone.from.contains(row) && !gone.to.contains(edge.neighbor),
        ),
        direction == Direction::In ==> picked::keeps(
            visible(edges, gone, direction, row),
            edges,
            |edge: EdgeView| !gone.from.contains(edge.neighbor) && !gone.to.contains(row),
        ),
    decreases edges.len(),
{
    let out = |edge: EdgeView| !gone.from.contains(row) && !gone.to.contains(edge.neighbor);
    let into = |edge: EdgeView| !gone.from.contains(edge.neighbor) && !gone.to.contains(row);
    if edges.len() == 0 {
        picked::lemma_keeps_none(edges, out);
        picked::lemma_keeps_none(edges, into);
    } else {
        law_visible_edges_have_both_ends(edges.drop_last(), gone, direction, row);
        assert(edges =~= edges.drop_last().push(edges.last()));
        let before = visible(edges.drop_last(), gone, direction, row);
        if direction == Direction::Out {
            picked::lemma_keeps_more(before, edges.drop_last(), out, edges.last());
        }
        if direction == Direction::In {
            picked::lemma_keeps_more(before, edges.drop_last(), into, edges.last());
        }
    }
}

/// Leaving loops out leaves every other edge, in order and as often as it is there.
pub proof fn law_only_loops_are_left_out(edges: Seq<EdgeView>, row: u64)
    ensures
        picked::keeps(without_loops(edges, row), edges, |edge: EdgeView| edge.neighbor != row),
        forall|edge: EdgeView|
            edge.neighbor != row ==> #[trigger] without_loops(edges, row).to_multiset().count(edge)
                == edges.to_multiset().count(edge),
        forall|edge: EdgeView|
            edge.neighbor == row ==> #[trigger] without_loops(edges, row).to_multiset().count(edge)
                == 0,
    decreases edges.len(),
{
    let wanted = |edge: EdgeView| edge.neighbor != row;
    if edges.len() == 0 {
        picked::lemma_keeps_none(edges, wanted);
        assert(without_loops(edges, row) =~= edges);
        edges.to_multiset_ensures();
    } else {
        let rest = edges.drop_last();
        law_only_loops_are_left_out(rest, row);
        assert(edges =~= rest.push(edges.last()));
        picked::lemma_keeps_more(without_loops(rest, row), rest, wanted, edges.last());
        rest.to_multiset_ensures();
        without_loops(rest, row).to_multiset_ensures();
        assert(edges.to_multiset() =~= rest.to_multiset().insert(edges.last()));
    }
}

/// The edges that are carried are those whose neighbour survives, in order and as often as they
/// are there, each with its values and with the neighbour's new number.
pub proof fn law_carried_edges_survive(edges: Seq<EdgeView>, remap: RemapView)
    ensures
        picked::gives(
            carried(edges, remap),
            edges,
            |edge: EdgeView|
                if remap.survives(edge.neighbor) {
                    Some(
                        EdgeView {
                            neighbor: remap.moved(edge.neighbor) as u64,
                            values: edge.values,
                        },
                    )
                } else {
                    None
                },
        ),
    decreases edges.len(),
{
    let of = |edge: EdgeView|
        if remap.survives(edge.neighbor) {
            Some(EdgeView { neighbor: remap.moved(edge.neighbor) as u64, values: edge.values })
        } else {
            None
        };
    if edges.len() == 0 {
        picked::lemma_gives_none(edges, of);
    } else {
        law_carried_edges_survive(edges.drop_last(), remap);
        assert(edges =~= edges.drop_last().push(edges.last()));
        picked::lemma_gives_more(
            carried(edges.drop_last(), remap),
            edges.drop_last(),
            of,
            edges.last(),
        );
    }
}

/// No edge of a gone row is visible.
pub proof fn lemma_gone_row(
    edges: Seq<EdgeView>,
    gone: TombstonesView,
    direction: Direction,
    row: u64,
)
    requires
        is_gone(gone, direction, row),
    ensures
        visible(edges, gone, direction, row) == Seq::<EdgeView>::empty(),
    decreases edges.len(),
{
    if edges.len() > 0 {
        lemma_gone_row(edges.drop_last(), gone, direction, row);
    }
}

/// What is visible of two lists is what is visible of each.
pub proof fn lemma_visible_joined(
    a: Seq<EdgeView>,
    b: Seq<EdgeView>,
    gone: TombstonesView,
    direction: Direction,
    row: u64,
)
    ensures
        visible(a + b, gone, direction, row) == visible(a, gone, direction, row) + visible(
            b,
            gone,
            direction,
            row,
        ),
    decreases b.len(),
{
    if b.len() == 0 {
        assert(a + b =~= a);
    } else {
        assert((a + b).drop_last() =~= a + b.drop_last());
        lemma_visible_joined(a, b.drop_last(), gone, direction, row);
        assert(visible(a + b, gone, direction, row) =~= visible(a, gone, direction, row) + visible(
            b,
            gone,
            direction,
            row,
        ));
    }
}

/// What is carried of two lists is what is carried of each.
pub proof fn lemma_carried_joined(a: Seq<EdgeView>, b: Seq<EdgeView>, remap: RemapView)
    ensures
        carried(a + b, remap) == carried(a, remap) + carried(b, remap),
    decreases b.len(),
{
    if b.len() == 0 {
        assert(a + b =~= a);
    } else {
        assert((a + b).drop_last() =~= a + b.drop_last());
        lemma_carried_joined(a, b.drop_last(), remap);
        assert(carried(a + b, remap) =~= carried(a, remap) + carried(b, remap));
    }
}

/// Visible edges are edges.
pub proof fn lemma_visible_kept(
    edges: Seq<EdgeView>,
    gone: TombstonesView,
    direction: Direction,
    row: u64,
    at: int,
)
    requires
        0 <= at < visible(edges, gone, direction, row).len(),
    ensures
        exists|i: int|
            0 <= i < edges.len() && edges[i] == visible(edges, gone, direction, row)[at],
        !is_hidden(
            gone,
            direction,
            row,
            visible(edges, gone, direction, row)[at].neighbor,
        ),
    decreases edges.len(),
{
    let before = visible(edges.drop_last(), gone, direction, row);
    if at < before.len() {
        lemma_visible_kept(edges.drop_last(), gone, direction, row, at);
        let i = choose|i: int| 0 <= i < edges.len() - 1 && edges.drop_last()[i] == before[at];
        assert(edges[i] == visible(edges, gone, direction, row)[at]);
    } else {
        assert(edges[edges.len() - 1] == visible(edges, gone, direction, row)[at]);
    }
}

/// The stored side of a table in one direction: the page ids, the rows of
/// the groups, the property types, and how many rows neighbours can be.
#[verifier::ext_equal]
pub struct SideView {
    pub ids: Seq<u64>,
    pub counts: Seq<nat>,
    pub types: Seq<LogicalType>,
    pub neighbor_rows: nat,
}

/// The page id of a group that has one.
pub open spec fn id_at(ids: Seq<u64>, group: int) -> Option<u64> {
    if 0 <= group < ids.len() && ids[group] != 0 {
        Some(ids[group])
    } else {
        None
    }
}

/// The stored edges of a row, or the kind of error that reading them gives.
pub open spec fn stored(
    store: Map<u64, GroupView>,
    side: SideView,
    row: u64,
) -> Result<Seq<EdgeView>, ErrorKind> {
    match layout::group_of(side.counts, row as int) {
        None => Ok(Seq::empty()),
        Some(group) => match id_at(side.ids, group) {
            None => Ok(Seq::empty()),
            Some(id) => match groups::csr_at(store, id, side.types, side.neighbor_rows) {
                None => Err(ErrorKind::Corrupt),
                Some(csr) => {
                    let slot = row - layout::rows_before(side.counts, group);
                    if csr.slots.len() > side.counts[group] {
                        Err(ErrorKind::Corrupt)
                    } else if slot < csr.slots.len() {
                        Ok(csr.slots[slot])
                    } else {
                        Ok(Seq::empty())
                    }
                },
            },
        },
    }
}

/// The stored edges of a row, then the buffered ones.
pub open spec fn resident(
    store: Map<u64, GroupView>,
    side: SideView,
    buffered: Seq<RelationshipView>,
    direction: Direction,
    row: u64,
) -> Result<Seq<EdgeView>, ErrorKind> {
    match stored(store, side, row) {
        Ok(edges) => Ok(edges + incident(buffered, direction, row)),
        Err(kind) => Err(kind),
    }
}

/// The visible edges of a row; those of a gone row are not even read.
pub open spec fn seen(
    store: Map<u64, GroupView>,
    side: SideView,
    buffered: Seq<RelationshipView>,
    gone: TombstonesView,
    direction: Direction,
    row: u64,
) -> Result<Seq<EdgeView>, ErrorKind> {
    if is_gone(gone, direction, row) {
        Ok(Seq::empty())
    } else {
        match resident(store, side, buffered, direction, row) {
            Ok(edges) => Ok(visible(edges, gone, direction, row)),
            Err(kind) => Err(kind),
        }
    }
}

/// Whether an edge of a row has a gone endpoint.
pub fn edge_is_hidden(
    gone: &RelEndpointTombstones,
    direction: Direction,
    row: u64,
    neighbor: u64,
) -> (yes: bool)
    ensures
        yes == is_hidden(gone@, direction, row, neighbor),
{
    broadcast use vstd::std_specs::btree::group_btree_axioms;

    if direction == Direction::Out {
        gone.from_offsets.contains(&row) || gone.to_offsets.contains(&neighbor)
    } else {
        gone.from_offsets.contains(&neighbor) || gone.to_offsets.contains(&row)
    }
}

/// Whether a row is a gone endpoint.
pub fn row_is_gone(gone: &RelEndpointTombstones, direction: Direction, row: u64) -> (yes: bool)
    ensures
        yes == is_gone(gone@, direction, row),
{
    broadcast use vstd::std_specs::btree::group_btree_axioms;

    if direction == Direction::Out {
        gone.from_offsets.contains(&row)
    } else {
        gone.to_offsets.contains(&row)
    }
}

/// Appends the relationships at a row as its edges.
pub fn append_incident(
    edges: &mut Vec<CsrEdge>,
    buffered: &Vec<ScannedRelationship>,
    direction: Direction,
    row: u64,
)
    ensures
        groups::edges_of(final(edges)@) == groups::edges_of(old(edges)@) + incident(
            relationships(buffered@),
            direction,
            row,
        ),
{
    let ghost before = groups::edges_of(edges@);
    let ghost all = relationships(buffered@);
    let mut i: usize = 0;
    proof {
        assert(all.subrange(0, 0) =~= Seq::empty());
        assert(before + incident(all.subrange(0, 0), direction, row) =~= before);
    }
    while i < buffered.len()
        invariant
            i <= buffered@.len(),
            all == relationships(buffered@),
            groups::edges_of(edges@) == before + incident(
                all.subrange(0, i as int),
                direction,
                row,
            ),
        decreases buffered@.len() - i,
    {
        let edge: &ScannedRelationship = &buffered[i];
        let (near_end, far_end): (u64, u64) = if direction == Direction::Out {
            (edge.from, edge.to)
        } else {
            (edge.to, edge.from)
        };
        let ghost shown = groups::edges_of(edges@);
        proof {
            let next = all.subrange(0, i + 1);
            assert(next.drop_last() =~= all.subrange(0, i as int));
            assert(next.last() == buffered@[i as int]@);
        }
        if near_end == row {
            edges.push(
                CsrEdge {
                    neighbor: far_end,
                    values: duplicate_values(edge.values.as_slice()),
                },
            );
            proof {
                let added = EdgeView { neighbor: far_end, values: all[i as int].values };
                assert(edges@.last()@ =~= added);
                assert(groups::edges_of(edges@) =~= shown.push(added));
                assert(shown.push(added) =~= before + incident(
                    all.subrange(0, i as int),
                    direction,
                    row,
                ).push(added));
            }
        }
        i += 1;
    }
    assert(all.subrange(0, all.len() as int) =~= all);
}

/// Keeps the edges of a row that have no gone endpoint.
pub fn keep_visible(
    edges: Vec<CsrEdge>,
    gone: &RelEndpointTombstones,
    direction: Direction,
    row: u64,
) -> (kept: Vec<CsrEdge>)
    ensures
        groups::edges_of(kept@) == visible(groups::edges_of(edges@), gone@, direction, row),
{
    let ghost all = groups::edges_of(edges@);
    let mut kept: Vec<CsrEdge> = Vec::new();
    let mut i: usize = 0;
    assert(all.subrange(0, 0) =~= Seq::empty());
    assert(groups::edges_of(kept@) =~= Seq::empty());
    while i < edges.len()
        invariant
            i <= edges@.len(),
            all == groups::edges_of(edges@),
            groups::edges_of(kept@) == visible(
                all.subrange(0, i as int),
                gone@,
                direction,
                row,
            ),
        decreases edges@.len() - i,
    {
        let edge: &CsrEdge = &edges[i];
        let ghost shown = groups::edges_of(kept@);
        proof {
            let next = all.subrange(0, i + 1);
            assert(next.drop_last() =~= all.subrange(0, i as int));
            assert(next.last() == edges@[i as int]@);
        }
        if !edge_is_hidden(gone, direction, row, edge.neighbor) {
            kept.push(
                CsrEdge {
                    neighbor: edge.neighbor,
                    values: duplicate_values(edge.values.as_slice()),
                },
            );
            proof {
                assert(kept@.last()@ =~= all[i as int]);
                assert(groups::edges_of(kept@) =~= shown.push(all[i as int]));
            }
        }
        i += 1;
    }
    assert(all.subrange(0, all.len() as int) =~= all);
    kept
}

/// Keeps the edges that do not lead back to the row.
pub fn drop_loops(edges: Vec<CsrEdge>, row: u64) -> (kept: Vec<CsrEdge>)
    ensures
        groups::edges_of(kept@) == without_loops(groups::edges_of(edges@), row),
{
    let ghost all = groups::edges_of(edges@);
    let mut kept: Vec<CsrEdge> = Vec::new();
    let mut i: usize = 0;
    assert(all.subrange(0, 0) =~= Seq::empty());
    assert(groups::edges_of(kept@) =~= Seq::empty());
    while i < edges.len()
        invariant
            i <= edges@.len(),
            all == groups::edges_of(edges@),
            groups::edges_of(kept@) == without_loops(all.subrange(0, i as int), row),
        decreases edges@.len() - i,
    {
        let edge: &CsrEdge = &edges[i];
        let ghost shown = groups::edges_of(kept@);
        proof {
            let next = all.subrange(0, i + 1);
            assert(next.drop_last() =~= all.subrange(0, i as int));
            assert(next.last() == edges@[i as int]@);
        }
        if edge.neighbor != row {
            kept.push(
                CsrEdge {
                    neighbor: edge.neighbor,
                    values: duplicate_values(edge.values.as_slice()),
                },
            );
            proof {
                assert(kept@.last()@ =~= all[i as int]);
                assert(groups::edges_of(kept@) =~= shown.push(all[i as int]));
            }
        }
        i += 1;
    }
    assert(all.subrange(0, all.len() as int) =~= all);
    kept
}

} // verus!
