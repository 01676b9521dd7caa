//! Rewriting one side of a table for moved node offsets.

use vstd::prelude::*;

use crate::budget::MemoryBudget;
use crate::error::{budget_exceeded, corrupt, invalid_argument, DevonError, DevonResult, ErrorKind};
use crate::groups;
use crate::groups::{
    footprint_tally, values_tally, CsrEdge, CsrGroup, CsrView, EdgeView, GroupStore, GroupView,
    StoredGroup,
};
use crate::overlay::{RelEndpointTombstones, TombstonesView};
use crate::rel_table::blocked;
use crate::rel_table::blocked::{BlockedView, DetachCheckpointBlocked};
use crate::rel_table::edges;
use crate::rel_table::edges::{
    edge_is_hidden, Direction, RelationshipView, ScannedRelationship, SideView,
};
use crate::rel_table::layout;
use crate::rel_table::layout::EndpointLayout;
use crate::rel_table::merge;
use crate::rel_table::merge::{duplicate_types, push_all, MergeView};
use crate::rel_table::remap;
use crate::rel_table::remap::{OffsetRemap, RemapView};
use crate::rel_table::{more_rows_than_its_group, stored_group_id, Side};
use crate::tally;
use crate::tally::Tally;
use crate::types;
use crate::types::duplicate_values;

verus! {

/// One side to rewrite: what was stored, the new rows, how rows and
/// neighbours move, which edges are gone, the buffered edges where they
/// move, and the memory budget.
#[verifier::ext_equal]
pub struct JobView {
    pub old: SideView,
    pub new_counts: Seq<nat>,
    pub near: RemapView,
    pub far: RemapView,
    pub gone: TombstonesView,
    pub direction: Direction,
    pub overlay: Seq<RelationshipView>,
    pub relationship: Seq<char>,
    pub charged: nat,
    pub limit: nat,
}

/// What stops a rewrite.
pub enum Fault {
    Kind(ErrorKind),
    Blocked(BlockedView),
}

/// Whether an error tells of what stopped a rewrite.
pub open spec fn tells(error: DevonError, fault: Fault) -> bool {
    match fault {
        Fault::Kind(kind) => error.kind_of() == kind,
        Fault::Blocked(blocked) => error.kind_of() == ErrorKind::BudgetExceeded && error.text_of()
            == blocked::context_of(blocked),
    }
}

impl JobView {
    /// The moves cover the rows, and the buffered edges have the property
    /// types.
    pub open spec fn wf(self) -> bool {
        &&& self.near.wf()
        &&& self.far.wf()
        &&& layout::total_rows(self.old.counts) <= self.near.old_domain
        &&& self.old.neighbor_rows <= self.far.old_domain
        &&& layout::total_rows(self.new_counts) <= u64::MAX
        &&& forall|i: int|
            0 <= i < self.overlay.len() ==> groups::values_fit(
                self.old.types,
                (#[trigger] self.overlay[i]).values,
            )
    }

    /// The first row of a new group.
    pub open spec fn first_row(self, group: int) -> int {
        layout::rows_before(self.new_counts, group) as int
    }
}

/// The buffered edges that are visible and whose endpoints survive, with the
/// endpoints where they move.
pub open spec fn carried_edges(
    buffered: Seq<RelationshipView>,
    gone: TombstonesView,
    from_remap: RemapView,
    to_remap: RemapView,
) -> Seq<RelationshipView>
    decreases buffered.len(),
{
    if buffered.len() == 0 {
        Seq::empty()
    } else {
        let before = carried_edges(buffered.drop_last(), gone, from_remap, to_remap);
        let edge = buffered.last();
        if !gone.hides(edge.from, edge.to) && from_remap.survives(edge.from) && to_remap.survives(
            edge.to,
        ) {
            before.push(
                RelationshipView {
                    from: from_remap.moved(edge.from) as u64,
                    to: to_remap.moved(edge.to) as u64,
                    values: edge.values,
                },
            )
        } else {
            before
        }
    }
}

/// Whether an old group has survivors before the end of a new group and
/// survivors at or behind its start.
pub open spec fn reaches(job: JobView, group: int, old_group: int) -> bool {
    &&& edges::id_at(job.old.ids, old_group) is Some
    &&& exists|x: u64| #[trigger]
        job.near.survives(x) && layout::lies_in(job.old.counts, old_group, x as int)
            && job.near.moved(x) < job.first_row(group + 1)
    &&& exists|x: u64| #[trigger]
        job.near.survives(x) && layout::lies_in(job.old.counts, old_group, x as int)
            && job.near.moved(x) >= job.first_row(group)
}

/// The old adjacency group at an index.
pub open spec fn old_csr(job: JobView, store: Map<u64, GroupView>, old_group: int) -> Option<
    CsrView,
> {
    groups::csr_at(
        store,
        edges::id_at(job.old.ids, old_group)->Some_0,
        job.old.types,
        job.old.neighbor_rows,
    )
}

/// Whether the old groups that a new group needs are readable.
pub open spec fn all_readable(job: JobView, store: Map<u64, GroupView>, group: int) -> bool {
    &&& forall|i: int|
        0 <= i < job.old.counts.len() && #[trigger] reaches(job, group, i) ==> old_csr(
            job,
            store,
            i,
        ) is Some
    &&& edges::id_at(job.old.ids, group) is Some ==> old_csr(job, store, group) is Some
}

/// Whether the old groups that a new group needs have no more rows than
/// their node groups.
pub open spec fn rows_fit(job: JobView, store: Map<u64, GroupView>, group: int) -> bool {
    forall|i: int|
        0 <= i < job.old.counts.len() && #[trigger] reaches(job, group, i) ==> old_csr(
            job,
            store,
            i,
        )->Some_0.slots.len() <= job.old.counts[i]
}

/// What reading old groups takes: their edges and property bytes together,
/// and the bytes of the largest, decoded and encoded.
#[verifier::ext_equal]
pub struct CostView {
    pub edges: nat,
    pub properties: nat,
    pub peak: nat,
}

/// The bytes of a group, decoded and encoded.
pub open spec fn both_forms(csr: CsrView) -> nat {
    2 * groups::footprint(
        csr.slots.len(),
        groups::edge_total(csr.slots),
        groups::slots_bytes(csr.slots),
    )
}

/// What reading the needed ones of the first `n` old groups takes.
pub open spec fn old_cost(job: JobView, store: Map<u64, GroupView>, group: int, n: int) -> CostView
    decreases n,
{
    if n <= 0 {
        CostView { edges: 0, properties: 0, peak: 0 }
    } else {
        let before = old_cost(job, store, group, n - 1);
        if reaches(job, group, n - 1) {
            let csr = old_csr(job, store, n - 1)->Some_0;
            CostView {
                edges: before.edges + groups::edge_total(csr.slots),
                properties: before.properties + groups::slots_bytes(csr.slots),
                peak: tally::larger_of(before.peak, both_forms(csr)),
            }
        } else {
            before
        }
    }
}

/// How many of the moved edges are of rows in a range, and the bytes of
/// their properties.
pub open spec fn overlay_cost(
    overlay: Seq<RelationshipView>,
    direction: Direction,
    start: int,
    end: int,
) -> (nat, nat)
    decreases overlay.len(),
{
    if overlay.len() == 0 {
        (0, 0)
    } else {
        let before = overlay_cost(overlay.drop_last(), direction, start, end);
        let edge = overlay.last();
        if start <= edges::near(edge, direction) < end {
            (before.0 + 1, before.1 + groups::values_bytes(edge.values))
        } else {
            before
        }
    }
}

/// The bytes of scratch memory that a new group takes.
pub open spec fn requested(job: JobView, store: Map<u64, GroupView>, group: int) -> nat {
    let old = old_cost(job, store, group, job.old.counts.len() as int);
    let peak = if edges::id_at(job.old.ids, group) is Some {
        tally::larger_of(old.peak, both_forms(old_csr(job, store, group)->Some_0))
    } else {
        old.peak
    };
    let more = overlay_cost(
        job.overlay,
        job.direction,
        job.first_row(group),
        job.first_row(group + 1),
    );
    peak + 2 * groups::footprint(
        job.new_counts[group],
        old.edges + more.0,
        old.properties + more.1,
    )
}

/// The old stored edges of a row that are visible, where they move.
pub open spec fn moved_edges(job: JobView, store: Map<u64, GroupView>, x: u64) -> Seq<EdgeView> {
    match edges::stored(store, job.old, x) {
        Ok(list) => edges::carried(edges::visible(list, job.gone, job.direction, x), job.far),
        Err(_) => Seq::empty(),
    }
}

/// The old stored edges that come to a new row, from survivors before `end`.
pub open spec fn arriving(job: JobView, store: Map<u64, GroupView>, y: int, end: int) -> Seq<
    EdgeView,
> {
    match job.near.survivor_at(y) {
        Some(x) => if x < end {
            moved_edges(job, store, x)
        } else {
            Seq::empty()
        },
        None => Seq::empty(),
    }
}

/// A new group: each row has the edges of the row that moved there, then the
/// moved buffered ones.
pub open spec fn rebuilt(job: JobView, store: Map<u64, GroupView>, group: int) -> CsrView {
    CsrView {
        types: job.old.types,
        slots: Seq::new(
            job.new_counts[group],
            |slot: int|
                arriving(
                    job,
                    store,
                    job.first_row(group) + slot,
                    layout::total_rows(job.old.counts) as int,
                ) + edges::incident(
                    job.overlay,
                    job.direction,
                    (job.first_row(group) + slot) as u64,
                ),
        ),
    }
}

/// Whether a group has no edge.
pub open spec fn edgeless(csr: CsrView) -> bool {
    forall|slot: int| 0 <= slot < csr.slots.len() ==> (#[trigger] csr.slots[slot]).len() == 0
}

/// The blocked checkpoint that a new group would be.
pub open spec fn blocked_at(job: JobView, store: Map<u64, GroupView>, group: int) -> BlockedView {
    BlockedView {
        relationship: job.relationship,
        direction: if job.direction == Direction::Out {
            "fwd"@
        } else {
            "bwd"@
        },
        group: group as nat,
        requested: requested(job, store, group),
        charged: job.charged,
        limit: job.limit,
    }
}

/// What stops a new group before it is built.
pub open spec fn hindrance(job: JobView, store: Map<u64, GroupView>, group: int) -> Option<Fault> {
    if !all_readable(job, store, group) {
        Some(Fault::Kind(ErrorKind::Corrupt))
    } else if requested(job, store, group) > usize::MAX {
        Some(Fault::Kind(ErrorKind::Corrupt))
    } else if job.charged + requested(job, store, group) > job.limit {
        Some(Fault::Blocked(blocked_at(job, store, group)))
    } else if !rows_fit(job, store, group) {
        Some(Fault::Kind(ErrorKind::Corrupt))
    } else {
        None
    }
}

/// Gives a new group a page id: none where it has no edge, the old one where
/// the group there says the same, else the next.
pub open spec fn placed(state: MergeView, job: JobView, group: int) -> Result<MergeView, Fault> {
    let csr = rebuilt(job, state.store, group);
    let candidate = edges::id_at(job.old.ids, group);
    if edgeless(csr) {
        Ok(MergeView { ids: state.ids.push(0), ..state })
    } else if candidate is Some && old_csr(job, state.store, group) == Some(csr) {
        Ok(MergeView { ids: state.ids.push(candidate->Some_0), ..state })
    } else if state.next == u64::MAX {
        Err(Fault::Kind(ErrorKind::InvalidArgument))
    } else {
        Ok(
            MergeView {
                store: state.store.insert(state.next, GroupView::Csr(csr)),
                next: (state.next + 1) as u64,
                ids: state.ids.push(state.next),
            },
        )
    }
}

/// Rewrites the new groups from one on.
pub open spec fn rewrite(state: MergeView, job: JobView, group: nat) -> Result<MergeView, Fault>
    decreases job.new_counts.len() - group,
{
    if group >= job.new_counts.len() {
        Ok(state)
    } else {
        match hindrance(job, state.store, group as int) {
            Some(fault) => Err(fault),
            None => match placed(state, job, group as int) {
                Err(fault) => Err(fault),
                Ok(next) => rewrite(next, job, group + 1),
            },
        }
    }
}

/// Page ids without the zeros at the end.
pub open spec fn trimmed(ids: Seq<u64>) -> Seq<u64>
    decreases ids.len(),
{
    if ids.len() > 0 && ids.last() == 0 {
        trimmed(ids.drop_last())
    } else {
        ids
    }
}

/// A group has the same page id with and without the zeros at the end.
pub proof fn lemma_trimmed(ids: Seq<u64>, group: int)
    ensures
        edges::id_at(trimmed(ids), group) == edges::id_at(ids, group),
        trimmed(ids).len() <= ids.len(),
    decreases ids.len(),
{
    if ids.len() > 0 && ids.last() == 0 {
        lemma_trimmed(ids.drop_last(), group);
    }
}

/// The moved edges at a moved row are the row's edges, moved.
pub proof fn lemma_carried_incident(
    buffered: Seq<RelationshipView>,
    gone: TombstonesView,
    from_remap: RemapView,
    to_remap: RemapView,
    direction: Direction,
    x: u64,
)
    requires
        from_remap.wf(),
        to_remap.wf(),
        direction != Direction::Both,
        direction == Direction::Out ==> from_remap.survives(x),
        direction == Direction::In ==> to_remap.survives(x),
    ensures
        ({
            let near = if direction == Direction::Out {
                from_remap
            } else {
                to_remap
            };
            let far = if direction == Direction::Out {
                to_remap
            } else {
                from_remap
            };
            edges::incident(
                carried_edges(buffered, gone, from_remap, to_remap),
                direction,
                near.moved(x) as u64,
            ) == edges::carried(
                edges::visible(edges::incident(buffered, direction, x), gone, direction, x),
                far,
            )
        }),
    decreases buffered.len(),
{
    let near = if direction == Direction::Out {
        from_remap
    } else {
        to_remap
    };
    if buffered.len() > 0 {
        lemma_carried_incident(buffered.drop_last(), gone, from_remap, to_remap, direction, x);
        let edge = buffered.last();
        let list = carried_edges(buffered, gone, from_remap, to_remap);
        let before = carried_edges(buffered.drop_last(), gone, from_remap, to_remap);
        let own = edges::near(edge, direction);
        remap::law_moved_is_a_row(near, x);
        if near.survives(own) {
            remap::law_moved_is_a_row(near, own);
            remap::law_moved_is_monotone(near, own, x);
        }
        if list.len() > before.len() {
            assert(list.drop_last() =~= before);
        }
        let held = edges::incident(buffered, direction, x);
        let held_before = edges::incident(buffered.drop_last(), direction, x);
        if own == x {
            assert(held.drop_last() =~= held_before);
            let seen = edges::visible(held, gone, direction, x);
            let seen_before = edges::visible(held_before, gone, direction, x);
            if seen.len() > seen_before.len() {
                assert(seen.drop_last() =~= seen_before);
            }
        }
    }
}

/// Moved edges lead to rows, with values of the types.
pub proof fn lemma_carried_edges_lawful(
    buffered: Seq<RelationshipView>,
    gone: TombstonesView,
    from_remap: RemapView,
    to_remap: RemapView,
    at: int,
)
    requires
        from_remap.wf(),
        to_remap.wf(),
        0 <= at < carried_edges(buffered, gone, from_remap, to_remap).len(),
    ensures
        ({
            let edge = carried_edges(buffered, gone, from_remap, to_remap)[at];
            &&& edge.from < from_remap.new_domain()
            &&& edge.to < to_remap.new_domain()
            &&& exists|i: int| 0 <= i < buffered.len() && buffered[i].values == edge.values
        }),
    decreases buffered.len(),
{
    let before = carried_edges(buffered.drop_last(), gone, from_remap, to_remap);
    let edge = carried_edges(buffered, gone, from_remap, to_remap)[at];
    if at < before.len() {
        lemma_carried_edges_lawful(buffered.drop_last(), gone, from_remap, to_remap, at);
        let i = choose|i: int|
            0 <= i < buffered.len() - 1 && buffered.drop_last()[i].values == edge.values;
        assert(buffered[i].values == edge.values);
    } else {
        remap::law_moved_is_a_row(from_remap, buffered.last().from);
        remap::law_moved_is_a_row(to_remap, buffered.last().to);
        assert(buffered[buffered.len() - 1].values == edge.values);
    }
}

/// Moves the buffered edges.
pub(crate) fn carry_edges(
    buffered: &Vec<ScannedRelationship>,
    gone: &RelEndpointTombstones,
    from_remap: &OffsetRemap,
    to_remap: &OffsetRemap,
) -> (result: DevonResult<Vec<ScannedRelationship>>)
    requires
        from_remap.wf(),
        to_remap.wf(),
    ensures
        ({
            let all = edges::relationships(buffered@);
            let outside = exists|i: int|
                #![trigger all[i]]
                0 <= i < all.len() && (all[i].from >= from_remap@.old_domain || all[i].to
                    >= to_remap@.old_domain);
            match result {
                Ok(list) => !outside && edges::relationships(list@) == carried_edges(
                    all,
                    gone@,
                    from_remap@,
                    to_remap@,
                ),
                Err(error) => outside && error.kind_of() == ErrorKind::Corrupt,
            }
        }),
{
    let ghost all = edges::relationships(buffered@);
    let mut list: Vec<ScannedRelationship> = Vec::new();
    let mut i: usize = 0;
    assert(all.subrange(0, 0) =~= Seq::empty());
    assert(edges::relationships(list@) =~= Seq::empty());
    while i < buffered.len()
        invariant
            i <= buffered@.len(),
            from_remap.wf(),
            to_remap.wf(),
            all == edges::relationships(buffered@),
            forall|k: int|
                #![trigger all[k]]
                0 <= k < i ==> all[k].from < from_remap@.old_domain && all[k].to
                    < to_remap@.old_domain,
            edges::relationships(list@) == carried_edges(
                all.subrange(0, i as int),
                gone@,
                from_remap@,
                to_remap@,
            ),
        decreases buffered@.len() - i,
    {
        let edge: &ScannedRelationship = &buffered[i];
        let ghost shown = edges::relationships(list@);
        proof {
            let next = all.subrange(0, i + 1);
            assert(next.drop_last() =~= all.subrange(0, i as int));
            assert(next.last() == all[i as int]);
            assert(all[i as int] == buffered@[i as int]@);
        }
        let from: Option<u64> = match from_remap.map(edge.from) {
            Ok(moved) => moved,
            Err(error) => {
                return Err(error);
            },
        };
        let to: Option<u64> = match to_remap.map(edge.to) {
            Ok(moved) => moved,
            Err(error) => {
                return Err(error);
            },
        };
        if !edge_is_hidden(gone, Direction::Out, edge.from, edge.to) {
            match (from, to) {
                (Some(from), Some(to)) => {
                    list.push(
                        ScannedRelationship {
                            from,
                            to,
                            values: duplicate_values(edge.values.as_slice()),
                        },
                    );
                    proof {
                        let added = RelationshipView {
                            from: from_remap@.moved(all[i as int].from) as u64,
                            to: to_remap@.moved(all[i as int].to) as u64,
                            values: all[i as int].values,
                        };
                        assert(list@.last()@ =~= added);
                        assert(edges::relationships(list@) =~= shown.push(added));
                    }
                },
                _ => {},
            }
        }
        i += 1;
    }
    assert(all.subrange(0, all.len() as int) =~= all);
    Ok(list)
}

/// Everything that a rewrite reads.
pub(crate) struct Job<'a> {
    pub(crate) old: &'a Side,
    pub(crate) new_layout: &'a EndpointLayout,
    pub(crate) near: &'a OffsetRemap,
    pub(crate) far: &'a OffsetRemap,
    pub(crate) gone: &'a RelEndpointTombstones,
    pub(crate) direction: Direction,
    pub(crate) overlay: &'a Vec<ScannedRelationship>,
    pub(crate) relationship: &'a str,
}

impl<'a> Job<'a> {
    /// The job under a budget.
    pub(crate) open spec fn under(self, budget: MemoryBudget) -> JobView {
        JobView {
            old: self.old@,
            new_counts: self.new_layout@,
            near: self.near@,
            far: self.far@,
            gone: self.gone@,
            direction: self.direction,
            overlay: edges::relationships(self.overlay@),
            relationship: self.relationship@,
            charged: budget.charged_of(),
            limit: budget.limit_of(),
        }
    }

    pub(crate) open spec fn sound(self, budget: MemoryBudget) -> bool {
        &&& self.old.wf()
        &&& self.new_layout.wf()
        &&& self.under(budget).wf()
    }

    pub(crate) open spec fn wf(self, budget: MemoryBudget) -> bool {
        self.sound(budget) && self.direction != Direction::Both
    }

    /// Whether a new group needs an old one.
    fn needs(&self, group: usize, old_group: usize, budget: &MemoryBudget) -> (needed: bool)
        requires
            self.wf(*budget),
            group < self.new_layout@.len(),
            old_group < self.old@.counts.len(),
        ensures
            needed == reaches(self.under(*budget), group as int, old_group as int),
    {
        let ghost job = self.under(*budget);
        if stored_group_id(&self.old.ids, old_group).is_none() {
            return false;
        }
        let start: u64 = self.new_layout.start_of(group);
        let end: u64 = start + self.new_layout.rows_in(group) as u64;
        let old_start: u64 = self.old.layout.start_of(old_group);
        let old_end: u64 = old_start + self.old.layout.rows_in(old_group) as u64;
        let range: Option<(u64, u64)> = self.near.survivor_range(old_start, old_end);
        proof {
            assert(job.first_row(group as int) == start);
            assert(job.first_row(group + 1) == end);
            assert forall|x: u64| #[trigger]
                job.near.survives(x) && layout::lies_in(
                    job.old.counts,
                    old_group as int,
                    x as int,
                ) implies old_start <= x < old_end by {}
            assert forall|x: u64| #[trigger]
                job.near.survives(x) && old_start <= x < old_end implies layout::lies_in(
                job.old.counts,
                old_group as int,
                x as int,
            ) by {}
        }
        match range {
            None => false,
            Some((first, behind)) => {
                proof {
                    let a = choose|x: u64|
                        old_start <= x < old_end && #[trigger] job.near.survives(x)
                            && job.near.moved(x) == first;
                    let b = choose|x: u64|
                        old_start <= x < old_end && #[trigger] job.near.survives(x)
                            && job.near.moved(x) + 1 == behind;
                    assert(job.near.survives(a));
                    assert(job.near.survives(b));
                }
                first < end && start < behind
            },
        }
    }

    /// Reads an old group.
    fn read_old<'b>(&self, store: &'b GroupStore, id: u64) -> (result: DevonResult<&'b CsrGroup>)
        requires
            store.wf(),
        ensures
            match result {
                Ok(group) => groups::csr_at(store@, id, self.old@.types, self.old@.neighbor_rows)
                    == Some(group@),
                Err(error) => groups::csr_at(store@, id, self.old@.types, self.old@.neighbor_rows)
                    is None && error.kind_of() == ErrorKind::Corrupt,
            },
    {
        store.read_checked(id, &self.old.types, self.old.neighbor_rows)
    }

    /// What a new group takes, and which old groups it needs.
    fn estimate(&self, store: &GroupStore, group: usize, budget: &MemoryBudget) -> (result:
        DevonResult<(Vec<bool>, Tally)>)
        requires
            store.wf(),
            self.wf(*budget),
            group < self.new_layout@.len(),
        ensures
            match result {
                Ok((needed, bytes)) => {
                    &&& all_readable(self.under(*budget), store@, group as int)
                    &&& needed@.len() == self.old@.counts.len()
                    &&& forall|i: int|
                        0 <= i < needed@.len() ==> #[trigger] needed@[i] == reaches(
                            self.under(*budget),
                            group as int,
                            i,
                        )
                    &&& bytes.wf()
                    &&& bytes@ == requested(self.under(*budget), store@, group as int)
                },
                Err(error) => {
                    &&& !all_readable(self.under(*budget), store@, group as int)
                    &&& error.kind_of() == ErrorKind::Corrupt
                },
            },
    {
        let ghost job = self.under(*budget);
        let mut needed: Vec<bool> = Vec::new();
        let mut edge_count: Tally = Tally::of(0);
        let mut properties: Tally = Tally::of(0);
        let mut peak: Tally = Tally::of(0);
        let old_groups: usize = self.old.layout.group_count();
        let mut i: usize = 0;
        while i < old_groups
            invariant
                i <= old_groups == job.old.counts.len(),
                job == self.under(*budget),
                store.wf(),
                self.wf(*budget),
                group < self.new_layout@.len(),
                needed@.len() == i,
                forall|k: int|
                    0 <= k < i ==> #[trigger] needed@[k] == reaches(job, group as int, k),
                forall|k: int|
                    0 <= k < i && #[trigger] reaches(job, group as int, k) ==> old_csr(
                        job,
                        store@,
                        k,
                    ) is Some,
                edge_count.wf(),
                properties.wf(),
                peak.wf(),
                old_cost(job, store@, group as int, i as int) == (CostView {
                    edges: edge_count@,
                    properties: properties@,
                    peak: peak@,
                }),
            decreases old_groups - i,
        {
            let need: bool = self.needs(group, i, budget);
            if need {
                match stored_group_id(&self.old.ids, i) {
                    Some(id) => {
                        match self.read_old(store, id) {
                            Ok(csr) => {
                                let (edges, bytes): (Tally, Tally) = csr.tally();
                                assert(old_csr(job, store@, i as int) == Some(csr@));
                                edge_count = edge_count.plus(&edges);
                                properties = properties.plus(&bytes);
                                peak = peak.larger(&csr.both_forms());
                            },
                            Err(error) => {
                                assert(reaches(job, group as int, i as int));
                                return Err(error);
                            },
                        }
                    },
                    None => {},
                }
            }
            needed.push(need);
            i += 1;
        }
        match stored_group_id(&self.old.ids, group) {
            Some(id) => {
                match self.read_old(store, id) {
                    Ok(csr) => {
                        assert(old_csr(job, store@, group as int) == Some(csr@));
                        peak = peak.larger(&csr.both_forms());
                    },
                    Err(error) => {
                        return Err(error);
                    },
                }
            },
            None => {},
        }
        let start: u64 = self.new_layout.start_of(group);
        let rows: usize = self.new_layout.rows_in(group);
        let (more_edges, more_bytes): (Tally, Tally) = overlay_tally(
            self.overlay,
            self.direction,
            start,
            start + rows as u64,
        );
        let all_edges: Tally = edge_count.plus(&more_edges);
        let all_bytes: Tally = properties.plus(&more_bytes);
        let both: Tally = footprint_tally(rows, &all_edges, &all_bytes).times(2);
        let bytes: Tally = peak.plus(&both);
        assert(job.first_row(group + 1) == start + rows);
        Ok((needed, bytes))
    }

    /// Builds a new group from the old groups that it needs.
    fn build(&self, store: &GroupStore, group: usize, needed: &Vec<bool>, budget: &MemoryBudget) -> (
    result: DevonResult<CsrGroup>)
        requires
            store.wf(),
            self.wf(*budget),
            group < self.new_layout@.len(),
            all_readable(self.under(*budget), store@, group as int),
            needed@.len() == self.old@.counts.len(),
            forall|i: int|
                0 <= i < needed@.len() ==> #[trigger] needed@[i] == reaches(
                    self.under(*budget),
                    group as int,
                    i,
                ),
        ensures
            match result {
                Ok(csr) => rows_fit(self.under(*budget), store@, group as int) && csr@ == rebuilt(
                    self.under(*budget),
                    store@,
                    group as int,
                ),
                Err(error) => !rows_fit(self.under(*budget), store@, group as int)
                    && error.kind_of() == ErrorKind::Corrupt,
            },
    {
        let ghost job = self.under(*budget);
        let start: u64 = self.new_layout.start_of(group);
        let rows: usize = self.new_layout.rows_in(group);
        let mut replacement: CsrGroup = CsrGroup::new(rows, duplicate_types(&self.old.types));
        let old_groups: usize = self.old.layout.group_count();
        let mut i: usize = 0;
        proof {
            assert forall|slot: int| 0 <= slot < rows implies #[trigger] replacement@.slots[slot]
                == arriving(
                job,
                store@,
                start + slot,
                layout::rows_before(job.old.counts, 0) as int,
            ) by {}
        }
        while i < old_groups
            invariant
                i <= old_groups == job.old.counts.len(),
                job == self.under(*budget),
                store.wf(),
                self.wf(*budget),
                group < self.new_layout@.len(),
                rows == job.new_counts[group as int],
                start == job.first_row(group as int),
                start + rows == job.first_row(group + 1),
                start + rows <= u64::MAX,
                all_readable(job, store@, group as int),
                needed@.len() == old_groups,
                forall|k: int|
                    0 <= k < needed@.len() ==> #[trigger] needed@[k] == reaches(
                        job,
                        group as int,
                        k,
                    ),
                forall|k: int|
                    0 <= k < i && #[trigger] reaches(job, group as int, k) ==> old_csr(
                        job,
                        store@,
                        k,
                    )->Some_0.slots.len() <= job.old.counts[k],
                replacement@.types == job.old.types,
                replacement@.slots.len() == rows,
                forall|slot: int|
                    0 <= slot < rows ==> #[trigger] replacement@.slots[slot] == arriving(
                        job,
                        store@,
                        start + slot,
                        layout::rows_before(job.old.counts, i as int) as int,
                    ),
            decreases old_groups - i,
        {
            let old_start: u64 = self.old.layout.start_of(i);
            let old_rows: usize = self.old.layout.rows_in(i);
            let ghost before = replacement@.slots;
            if needed[i] {
                let id: u64 = match stored_group_id(&self.old.ids, i) {
                    Some(id) => id,
                    None => {
                        return Err(corrupt("CSR group has no page"));
                    },
                };
                let csr: &CsrGroup = match self.read_old(store, id) {
                    Ok(csr) => csr,
                    Err(error) => {
                        return Err(error);
                    },
                };
                assert(old_csr(job, store@, i as int) == Some(csr@));
                let held: usize = csr.row_count();
                if held > old_rows {
                    assert(reaches(job, group as int, i as int));
                    return Err(more_rows_than_its_group(held, old_rows, i));
                }
                self.append_old(&mut replacement, csr, old_start, start, budget);
                proof {
                    assert forall|slot: int| 0 <= slot < rows implies #[trigger] replacement@.slots[slot]
                        == arriving(
                        job,
                        store@,
                        start + slot,
                        layout::rows_before(job.old.counts, i + 1) as int,
                    ) by {
                        lemma_arrived(job, store@, start + slot, i as int, csr@);
                        assert(replacement@.slots[slot] =~= before[slot] + passed(
                            job,
                            csr@,
                            old_start as int,
                            start + slot,
                            csr@.slots.len() as int,
                        ));
                        assert(Seq::<EdgeView>::empty() + passed(
                            job,
                            csr@,
                            old_start as int,
                            start + slot,
                            csr@.slots.len() as int,
                        ) =~= passed(
                            job,
                            csr@,
                            old_start as int,
                            start + slot,
                            csr@.slots.len() as int,
                        ));
                        assert(before[slot] + Seq::<EdgeView>::empty() =~= before[slot]);
                    }
                }
            } else {
                proof {
                    assert forall|slot: int| 0 <= slot < rows implies #[trigger] replacement@.slots[slot]
                        == arriving(
                        job,
                        store@,
                        start + slot,
                        layout::rows_before(job.old.counts, i + 1) as int,
                    ) by {
                        lemma_none_arrives(job, store@, group as int, start + slot, i as int);
                    }
                }
            }
            i += 1;
        }
        let ghost base = replacement@.slots;
        proof {
            assert forall|k: int| 0 <= k < self.overlay@.len() implies groups::values_fit(
                replacement@.types,
                (#[trigger] edges::relationships(self.overlay@)[k]).values,
            ) by {
                assert(job.overlay[k] == edges::relationships(self.overlay@)[k]);
            }
        }
        match push_all(&mut replacement, self.overlay, self.direction, start) {
            Ok(()) => {},
            Err(error) => {
                return Err(error);
            },
        }
        proof {
            let wanted = rebuilt(job, store@, group as int);
            assert forall|slot: int| 0 <= slot < rows implies replacement@.slots[slot]
                == wanted.slots[slot] by {
                assert(merge::slot_of(base, slot) == base[slot]);
            }
            assert(replacement@.slots =~= wanted.slots);
            assert(replacement@ =~= wanted);
        }
        Ok(replacement)
    }

    /// Appends the edges of an old group's survivors where they move.
    fn append_old(
        &self,
        replacement: &mut CsrGroup,
        csr: &CsrGroup,
        old_start: u64,
        start: u64,
        budget: &MemoryBudget,
    )
        requires
            self.wf(*budget),
            old(replacement)@.types == csr@.types,
            groups::edges_lawful(csr@, self.old@.neighbor_rows),
            old_start + csr@.slots.len() <= self.near@.old_domain,
            start + old(replacement)@.slots.len() <= u64::MAX,
        ensures
            final(replacement)@.types == old(replacement)@.types,
            final(replacement)@.slots.len() == old(replacement)@.slots.len(),
            forall|slot: int|
                0 <= slot < final(replacement)@.slots.len()
                    ==> #[trigger] final(replacement)@.slots[slot] == old(replacement)@.slots[slot]
                    + passed(
                    self.under(*budget),
                    csr@,
                    old_start as int,
                    start + slot,
                    csr@.slots.len() as int,
                ),
    {
        let ghost job = self.under(*budget);
        let ghost before = replacement@;
        let rows: usize = replacement.row_count();
        let held: usize = csr.row_count();
        let mut slot: usize = 0;
        proof {
            assert forall|s: int| 0 <= s < rows implies #[trigger] replacement@.slots[s]
                == before.slots[s] + passed(job, csr@, old_start as int, start + s, 0) by {
                lemma_passed_none(job, csr@, old_start as int, start + s);
                assert(before.slots[s] + Seq::<EdgeView>::empty() =~= before.slots[s]);
            }
        }
        while slot < held
            invariant
                slot <= held == csr@.slots.len(),
                rows == before.slots.len(),
                before == old(replacement)@,
                job == self.under(*budget),
                self.wf(*budget),
                before.types == csr@.types,
                groups::edges_lawful(csr@, self.old@.neighbor_rows),
                old_start + csr@.slots.len() <= self.near@.old_domain,
                start + rows <= u64::MAX,
                replacement@.types == before.types,
                replacement@.slots.len() == rows,
                forall|s: int|
                    0 <= s < rows ==> #[trigger] replacement@.slots[s] == before.slots[s] + passed(
                        job,
                        csr@,
                        old_start as int,
                        start + s,
                        slot as int,
                    ),
            decreases held - slot,
        {
            let x: u64 = old_start + slot as u64;
            let ghost middle = replacement@.slots;
            let target: Option<u64> = match self.near.map(x) {
                Ok(moved) => moved,
                Err(_) => None,
            };
            let mut place: Option<usize> = None;
            match target {
                Some(y) => {
                    if y >= start && y - start < rows as u64 {
                        place = Some((y - start) as usize);
                    }
                },
                None => {},
            }
            match place {
                Some(at) => {
                    proof {
                        let shown = groups::edges_of(csr.slots@[slot as int]@);
                        assert(csr@.slots[slot as int] == shown);
                        assert forall|k: int| 0 <= k < shown.len() implies (
                        #[trigger] shown[k]).neighbor < self.old@.neighbor_rows
                            && groups::values_fit(before.types, shown[k].values) by {
                            assert(csr@.slots[slot as int][k] == shown[k]);
                        }
                    }
                    self.append_moved(replacement, at, &csr.slots[slot], x, budget);
                },
                None => {},
            }
            proof {
                assert(csr@.slots[slot as int] == groups::edges_of(csr.slots@[slot as int]@));
                assert forall|s: int| 0 <= s < rows implies #[trigger] replacement@.slots[s]
                    == before.slots[s] + passed(
                    job,
                    csr@,
                    old_start as int,
                    start + s,
                    slot + 1,
                ) by {
                    lemma_passed_step(job, csr@, old_start as int, start + s, slot as int);
                    assert(before.slots[s] + Seq::<EdgeView>::empty() =~= before.slots[s]);
                    assert(middle[s] == before.slots[s] + passed(
                        job,
                        csr@,
                        old_start as int,
                        start + s,
                        slot as int,
                    ));
                    if job.near.survives(x) {
                        remap::law_moved_is_a_row(job.near, x);
                    }
                }
            }
            slot += 1;
        }
    }

    /// Appends a row's visible edges to a slot, with the neighbours where
    /// they move.
    fn append_moved(
        &self,
        replacement: &mut CsrGroup,
        slot: usize,
        list: &Vec<CsrEdge>,
        x: u64,
        budget: &MemoryBudget,
    )
        requires
            self.wf(*budget),
            slot < old(replacement)@.slots.len(),
            forall|i: int|
                0 <= i < list@.len() ==> (#[trigger] groups::edges_of(list@)[i]).neighbor
                    < self.old@.neighbor_rows && groups::values_fit(
                    old(replacement)@.types,
                    groups::edges_of(list@)[i].values,
                ),
        ensures
            final(replacement)@.types == old(replacement)@.types,
            final(replacement)@.slots == old(replacement)@.slots.update(
                slot as int,
                old(replacement)@.slots[slot as int] + edges::carried(
                    edges::visible(
                        groups::edges_of(list@),
                        self.gone@,
                        self.direction,
                        x,
                    ),
                    self.far@,
                ),
            ),
    {
        let ghost before = replacement@;
        let ghost all = groups::edges_of(list@);
        let ghost own = before.slots[slot as int];
        let ghost job = self.under(*budget);
        let mut i: usize = 0;
        proof {
            assert(all.subrange(0, 0) =~= Seq::empty());
            assert(own + edges::carried(
                edges::visible(all.subrange(0, 0), job.gone, job.direction, x),
                job.far,
            ) =~= own);
            assert(before.slots.update(slot as int, own) =~= before.slots);
        }
        while i < list.len()
            invariant
                i <= list@.len(),
                before == old(replacement)@,
                all == groups::edges_of(list@),
                own == before.slots[slot as int],
                job == self.under(*budget),
                self.wf(*budget),
                slot < before.slots.len(),
                forall|k: int|
                    0 <= k < list@.len() ==> (#[trigger] groups::edges_of(list@)[k]).neighbor
                        < self.old@.neighbor_rows && groups::values_fit(
                        before.types,
                        groups::edges_of(list@)[k].values,
                    ),
                replacement@.types == before.types,
                replacement@.slots == before.slots.update(
                    slot as int,
                    own + edges::carried(
                        edges::visible(all.subrange(0, i as int), job.gone, job.direction, x),
                        job.far,
                    ),
                ),
            decreases list@.len() - i,
        {
            let edge: &CsrEdge = &list[i];
            let ghost part = edges::visible(
                all.subrange(0, i as int),
                job.gone,
                job.direction,
                x,
            );
            let ghost next = edges::visible(all.subrange(0, i + 1), job.gone, job.direction, x);
            proof {
                let longer = all.subrange(0, i + 1);
                assert(longer.drop_last() =~= all.subrange(0, i as int));
                assert(longer.last() == all[i as int]);
                assert(all[i as int] == list@[i as int]@);
                if next.len() > part.len() {
                    assert(next.drop_last() =~= part);
                }
            }
            if !edge_is_hidden(self.gone, self.direction, x, edge.neighbor) {
                match self.far.map(edge.neighbor) {
                    Ok(Some(moved)) => {
                        let ghost middle = replacement@.slots;
                        match replacement.push_edge(
                            slot,
                            moved,
                            duplicate_values(edge.values.as_slice()),
                        ) {
                            Ok(()) => {},
                            Err(_) => {},
                        }
                        proof {
                            let added = EdgeView {
                                neighbor: job.far.moved(all[i as int].neighbor) as u64,
                                values: all[i as int].values,
                            };
                            assert(middle[slot as int].push(added) =~= own + edges::carried(
                                next,
                                job.far,
                            ));
                            assert(replacement@.slots =~= before.slots.update(
                                slot as int,
                                own + edges::carried(next, job.far),
                            ));
                        }
                    },
                    _ => {},
                }
            }
            i += 1;
        }
        assert(all.subrange(0, all.len() as int) =~= all);
    }

    fn blocked(&self, group: usize, requested: usize, budget: &MemoryBudget) -> (error: DevonError)
        requires
            self.direction != Direction::Both,
        ensures
            error.kind_of() == ErrorKind::BudgetExceeded,
            error.text_of() == blocked::context_of(
                (BlockedView {
                    relationship: self.relationship@,
                    direction: if self.direction == Direction::Out {
                        "fwd"@
                    } else {
                        "bwd"@
                    },
                    group: group as nat,
                    requested: requested as nat,
                    charged: budget.charged_of(),
                    limit: budget.limit_of(),
                }),
            ),
    {
        let direction: &str = if self.direction == Direction::Out {
            "fwd"
        } else {
            "bwd"
        };
        let blocked = DetachCheckpointBlocked {
            relationship: self.relationship.to_owned(),
            direction: direction.to_owned(),
            group,
            requested,
            charged: budget.charged(),
            limit: budget.limit(),
        };
        budget_exceeded(blocked.context().as_str())
    }

    /// Builds one new group under its charge, and gives it a page id.
    fn rewrite_group(
        &self,
        store: &mut GroupStore,
        group: usize,
        budget: &mut MemoryBudget,
    ) -> (result: DevonResult<u64>)
        requires
            old(store).wf(),
            self.wf(*old(budget)),
            group < self.new_layout@.len(),
        ensures
            final(store).wf(),
            final(budget).charged_of() == old(budget).charged_of(),
            final(budget).limit_of() == old(budget).limit_of(),
            merge::extends(old(store)@, final(store)@),
            ({
                let job = self.under(*old(budget));
                let state = MergeView {
                    store: old(store)@,
                    next: old(store).next_of(),
                    ids: Seq::empty(),
                };
                match (hindrance(job, old(store)@, group as int), result) {
                    (Some(fault), Err(error)) => tells(error, fault),
                    (None, _) => match (placed(state, job, group as int), result) {
                        (Ok(next), Ok(id)) => {
                            &&& final(store)@ == next.store
                            &&& final(store).next_of() == next.next
                            &&& next.ids == Seq::<u64>::empty().push(id)
                        },
                        (Err(fault), Err(error)) => tells(error, fault),
                        _ => false,
                    },
                    _ => false,
                }
            }),
    {
        let ghost job = self.under(*budget);
        let (needed, tallied): (Vec<bool>, Tally) = match self.estimate(
            store,
            group,
            budget,
        ) {
            Ok(found) => found,
            Err(error) => {
                return Err(error);
            },
        };
        let bytes: usize = match tallied.size() {
            Some(bytes) => bytes,
            None => {
                return Err(corrupt("detach checkpoint scratch estimate overflows usize"));
            },
        };
        let plain: MemoryBudget = *budget;
        if !budget.try_charge(bytes) {
            return Err(self.blocked(group, bytes, budget));
        }
        let result: DevonResult<u64> = self.place(store, group, &needed, &plain);
        budget.release(bytes);
        result
    }

    fn place(
        &self,
        store: &mut GroupStore,
        group: usize,
        needed: &Vec<bool>,
        budget: &MemoryBudget,
    ) -> (result: DevonResult<u64>)
        requires
            old(store).wf(),
            self.wf(*budget),
            group < self.new_layout@.len(),
            all_readable(self.under(*budget), old(store)@, group as int),
            needed@.len() == self.old@.counts.len(),
            forall|i: int|
                0 <= i < needed@.len() ==> #[trigger] needed@[i] == reaches(
                    self.under(*budget),
                    group as int,
                    i,
                ),
        ensures
            final(store).wf(),
            merge::extends(old(store)@, final(store)@),
            ({
                let job = self.under(*budget);
                let state = MergeView {
                    store: old(store)@,
                    next: old(store).next_of(),
                    ids: Seq::empty(),
                };
                if rows_fit(job, old(store)@, group as int) {
                    match (placed(state, job, group as int), result) {
                        (Ok(next), Ok(id)) => {
                            &&& final(store)@ == next.store
                            &&& final(store).next_of() == next.next
                            &&& next.ids == Seq::<u64>::empty().push(id)
                        },
                        (Err(fault), Err(error)) => tells(error, fault),
                        _ => false,
                    }
                } else {
                    result matches Err(error) && error.kind_of() == ErrorKind::Corrupt
                }
            }),
    {
        let built: CsrGroup = match self.build(store, group, needed, budget) {
            Ok(built) => built,
            Err(error) => {
                return Err(error);
            },
        };
        if built.is_edgeless() {
            return Ok(0);
        }
        match stored_group_id(&self.old.ids, group) {
            Some(id) => {
                match self.read_old(store, id) {
                    Ok(held) => {
                        if held.same(&built) {
                            return Ok(id);
                        }
                    },
                    Err(error) => {
                        return Err(error);
                    },
                }
            },
            None => {},
        }
        store.write(StoredGroup::Csr(built))
    }

    /// Rewrites one side of a table; the page ids come in group order. A
    /// rewrite has one side: both are refused. Scratch is charged against the
    /// room that the caller leaves: one that keeps caches gives them up first
    /// with [`crate::overlay::reclaim::make_room`].
    pub(crate) fn run(
        &self,
        store: &mut GroupStore,
        budget: &mut MemoryBudget,
        ids: &mut Vec<u64>,
    ) -> (result: DevonResult<()>)
        requires
            old(store).wf(),
            self.sound(*old(budget)),
            old(ids)@.len() == 0,
        ensures
            final(store).wf(),
            final(budget).charged_of() == old(budget).charged_of(),
            final(budget).limit_of() == old(budget).limit_of(),
            merge::extends(old(store)@, final(store)@),
            self.direction == Direction::Both ==> {
                &&& result matches Err(error) && error.kind_of() == ErrorKind::InvalidArgument
                &&& *final(store) == *old(store)
                &&& *final(ids) == *old(ids)
            },
            self.direction != Direction::Both ==> ({
                let start = MergeView {
                    store: old(store)@,
                    next: old(store).next_of(),
                    ids: Seq::empty(),
                };
                match (rewrite(start, self.under(*old(budget)), 0), result) {
                    (Ok(after), Ok(())) => {
                        &&& final(store)@ == after.store
                        &&& final(store).next_of() == after.next
                        &&& final(ids)@ == trimmed(after.ids)
                    },
                    (Err(fault), Err(error)) => tells(error, fault),
                    _ => false,
                }
            }),
    {
        if self.direction == Direction::Both {
            return Err(invalid_argument("cannot materialize Both direction"));
        }
        let ghost job = self.under(*budget);
        let ghost start = MergeView { store: store@, next: store.next_of(), ids: Seq::empty() };
        let ghost first_store = store@;
        let count: usize = self.new_layout.group_count();
        let mut group: usize = 0;
        assert(ids@ =~= Seq::empty());
        while group < count
            invariant
                group <= count == self.new_layout@.len(),
                job.new_counts == self.new_layout@,
                store.wf(),
                first_store == old(store)@,
                self.wf(*old(budget)),
                self.wf(*budget),
                job == self.under(*old(budget)),
                job == self.under(*budget),
                budget.charged_of() == old(budget).charged_of(),
                budget.limit_of() == old(budget).limit_of(),
                merge::extends(first_store, store@),
                start == (MergeView {
                    store: old(store)@,
                    next: old(store).next_of(),
                    ids: Seq::empty(),
                }),
                rewrite(start, job, 0) == rewrite(
                    MergeView { store: store@, next: store.next_of(), ids: ids@ },
                    job,
                    group as nat,
                ),
            decreases count - group,
        {
            let ghost here = MergeView { store: store@, next: store.next_of(), ids: ids@ };
            let ghost alone = MergeView { ids: Seq::empty(), ..here };
            proof {
                lemma_placed_ids(alone, here, job, group as int);
            }
            match self.rewrite_group(store, group, budget) {
                Ok(id) => {
                    ids.push(id);
                    assert(self.under(*budget) =~= job);
                    assert(ids@ =~= here.ids + Seq::<u64>::empty().push(id));
                },
                Err(error) => {
                    return Err(error);
                },
            }
            group += 1;
        }
        let ghost all = ids@;
        loop
            invariant_except_break
                trimmed(ids@) == trimmed(all),
            ensures
                ids@ == trimmed(all),
            decreases ids@.len(),
        {
            let size: usize = ids.len();
            if size == 0 || ids[size - 1] != 0 {
                break;
            }
            let ghost here = ids@;
            ids.pop();
            assert(ids@ =~= here.drop_last());
        }
        Ok(())
    }
}

/// How many moved edges are of rows in a range, and the bytes of their
/// properties.
fn overlay_tally(
    overlay: &Vec<ScannedRelationship>,
    direction: Direction,
    start: u64,
    end: u64,
) -> (totals: (Tally, Tally))
    ensures
        totals.0.wf(),
        totals.1.wf(),
        overlay_cost(
            edges::relationships(overlay@),
            direction,
            start as int,
            end as int,
        ) == (totals.0@, totals.1@),
{
    let ghost all = edges::relationships(overlay@);
    let mut count: Tally = Tally::of(0);
    let mut bytes: Tally = Tally::of(0);
    let mut i: usize = 0;
    assert(all.subrange(0, 0) =~= Seq::empty());
    while i < overlay.len()
        invariant
            i <= overlay@.len(),
            all == edges::relationships(overlay@),
            count.wf(),
            bytes.wf(),
            overlay_cost(all.subrange(0, i as int), direction, start as int, end as int) == (
                count@,
                bytes@,
            ),
        decreases overlay@.len() - i,
    {
        let edge: &ScannedRelationship = &overlay[i];
        let near_end: u64 = if direction == Direction::Out {
            edge.from
        } else {
            edge.to
        };
        proof {
            let next = all.subrange(0, i + 1);
            assert(next.drop_last() =~= all.subrange(0, i as int));
            assert(next.last() == overlay@[i as int]@);
        }
        if start <= near_end && near_end < end {
            count = count.plus(&Tally::of(1));
            bytes = bytes.plus(&values_tally(&edge.values));
        }
        i += 1;
    }
    assert(all.subrange(0, all.len() as int) =~= all);
    (count, bytes)
}

/// The edges that come to a new row from the first `n` slots of an old
/// group.
pub open spec fn passed(
    job: JobView,
    csr: CsrView,
    old_start: int,
    y: int,
    n: int,
) -> Seq<EdgeView> {
    match job.near.survivor_at(y) {
        Some(x) => if old_start <= x < old_start + n {
            edges::carried(
                edges::visible(csr.slots[x - old_start], job.gone, job.direction, x),
                job.far,
            )
        } else {
            Seq::empty()
        },
        None => Seq::empty(),
    }
}

proof fn lemma_passed_none(job: JobView, csr: CsrView, old_start: int, y: int)
    ensures
        passed(job, csr, old_start, y, 0) == Seq::<EdgeView>::empty(),
{
}

/// One slot more: its edges come where its row moves, and nowhere else.
proof fn lemma_passed_step(job: JobView, csr: CsrView, old_start: int, y: int, n: int)
    requires
        job.near.wf(),
        0 <= n < csr.slots.len(),
        0 <= old_start,
        old_start + n < job.near.old_domain,
    ensures
        ({
            let x = (old_start + n) as u64;
            if job.near.survives(x) && job.near.moved(x) == y {
                &&& passed(job, csr, old_start, y, n) == Seq::<EdgeView>::empty()
                &&& passed(job, csr, old_start, y, n + 1) == edges::carried(
                    edges::visible(csr.slots[n], job.gone, job.direction, x),
                    job.far,
                )
            } else {
                passed(job, csr, old_start, y, n + 1) == passed(job, csr, old_start, y, n)
            }
        }),
{
    let x = (old_start + n) as u64;
    if job.near.survives(x) && job.near.moved(x) == y {
        remap::law_moved_is_a_row(job.near, x);
    } else {
        remap::lemma_survivor(job.near, y);
    }
}

/// What comes to a row from an old group is what its slots pass.
proof fn lemma_arrived(
    job: JobView,
    store: Map<u64, GroupView>,
    y: int,
    old_group: int,
    csr: CsrView,
)
    requires
        job.wf(),
        0 <= old_group < job.old.counts.len(),
        edges::id_at(job.old.ids, old_group) is Some,
        old_csr(job, store, old_group) == Some(csr),
        csr.slots.len() <= job.old.counts[old_group],
    ensures
        ({
            let start = layout::rows_before(job.old.counts, old_group) as int;
            let end = layout::rows_before(job.old.counts, old_group + 1) as int;
            let part = passed(job, csr, start, y, csr.slots.len() as int);
            if job.near.survivor_at(y) is Some && start <= job.near.survivor_at(y)->Some_0 < end {
                &&& arriving(job, store, y, start) == Seq::<EdgeView>::empty()
                &&& arriving(job, store, y, end) == part
            } else {
                &&& arriving(job, store, y, end) == arriving(job, store, y, start)
                &&& part == Seq::<EdgeView>::empty()
            }
        }),
{
    let start = layout::rows_before(job.old.counts, old_group) as int;
    let end = layout::rows_before(job.old.counts, old_group + 1) as int;
    assert(end == start + job.old.counts[old_group]);
    match job.near.survivor_at(y) {
        Some(x) => {
            if start <= x < end {
                assert(layout::lies_in(job.old.counts, old_group, x as int));
                layout::lemma_one_group(job.old.counts, old_group, x as int);
                let slot = x - start;
                if slot >= csr.slots.len() {
                    assert(edges::stored(store, job.old, x) == Ok::<Seq<EdgeView>, ErrorKind>(
                        Seq::empty(),
                    ));
                    assert(moved_edges(job, store, x) =~= Seq::<EdgeView>::empty());
                } else {
                    assert(edges::stored(store, job.old, x) == Ok::<Seq<EdgeView>, ErrorKind>(
                        csr.slots[slot],
                    ));
                }
            }
        },
        None => {},
    }
}

/// Nothing comes from an old group that a new one does not need.
proof fn lemma_none_arrives(
    job: JobView,
    store: Map<u64, GroupView>,
    group: int,
    y: int,
    old_group: int,
)
    requires
        job.wf(),
        0 <= old_group < job.old.counts.len(),
        !reaches(job, group, old_group),
        job.first_row(group) <= y < job.first_row(group + 1),
    ensures
        arriving(job, store, y, layout::rows_before(job.old.counts, old_group + 1) as int)
            == arriving(job, store, y, layout::rows_before(job.old.counts, old_group) as int),
{
    let start = layout::rows_before(job.old.counts, old_group) as int;
    let end = layout::rows_before(job.old.counts, old_group + 1) as int;
    match job.near.survivor_at(y) {
        Some(x) => {
            remap::lemma_survivor(job.near, y);
            if start <= x < end {
                assert(layout::lies_in(job.old.counts, old_group, x as int));
                layout::lemma_one_group(job.old.counts, old_group, x as int);
                assert(job.near.survives(x));
                assert(edges::id_at(job.old.ids, old_group) is None);
                assert(moved_edges(job, store, x) =~= Seq::<EdgeView>::empty());
            }
        },
        None => {},
    }
}

/// Placing a group does not depend on the page ids before it.
proof fn lemma_placed_ids(alone: MergeView, state: MergeView, job: JobView, group: int)
    requires
        alone == (MergeView { ids: Seq::empty(), ..state }),
    ensures
        match (placed(alone, job, group), placed(state, job, group)) {
            (Ok(a), Ok(b)) => b == (MergeView { ids: state.ids + a.ids, ..a }),
            (Err(a), Err(b)) => a == b,
            _ => false,
        },
{
    match (placed(alone, job, group), placed(state, job, group)) {
        (Ok(a), Ok(b)) => {
            assert(state.ids + a.ids =~= b.ids);
        },
        _ => {},
    }
}

impl JobView {
    /// The new rows are those that rows move to, and the moved edges are
    /// between them.
    pub open spec fn moves_between(self) -> bool {
        &&& layout::total_rows(self.new_counts) == self.near.new_domain()
        &&& self.direction != Direction::Both
        &&& forall|i: int|
            #![trigger self.overlay[i]]
            0 <= i < self.overlay.len() ==> edges::near(self.overlay[i], self.direction)
                < self.near.new_domain() && edges::far(self.overlay[i], self.direction)
                < self.far.new_domain()
    }

    /// The side as it is stored behind the rewrite.
    pub open spec fn new_side(self, ids: Seq<u64>) -> SideView {
        SideView {
            ids,
            counts: self.new_counts,
            types: self.old.types,
            neighbor_rows: self.far.new_domain() as nat,
        }
    }

    /// A row's edges can be read, or need not be.
    pub open spec fn row_readable(self, store: Map<u64, GroupView>, x: u64) -> bool {
        edges::stored(store, self.old, x) is Ok || edges::is_gone(self.gone, self.direction, x)
    }
}

/// A carried edge is an edge whose neighbour survives.
proof fn lemma_carried_kept(list: Seq<EdgeView>, remap: RemapView, at: int)
    requires
        remap.wf(),
        0 <= at < edges::carried(list, remap).len(),
    ensures
        edges::carried(list, remap)[at].neighbor < remap.new_domain(),
        exists|i: int|
            0 <= i < list.len() && list[i].values == edges::carried(list, remap)[at].values,
    decreases list.len(),
{
    let before = edges::carried(list.drop_last(), remap);
    if at < before.len() {
        lemma_carried_kept(list.drop_last(), remap, at);
        let i = choose|i: int|
            0 <= i < list.len() - 1 && list.drop_last()[i].values == before[at].values;
        assert(list[i].values == edges::carried(list, remap)[at].values);
    } else {
        remap::law_moved_is_a_row(remap, list.last().neighbor);
        assert(list[list.len() - 1].values == edges::carried(list, remap)[at].values);
    }
}

/// Moved stored edges lead to rows, with values of the types.
proof fn lemma_moved_lawful(job: JobView, store: Map<u64, GroupView>, x: u64, at: int)
    requires
        job.wf(),
        0 <= at < moved_edges(job, store, x).len(),
    ensures
        moved_edges(job, store, x)[at].neighbor < job.far.new_domain(),
        groups::values_fit(job.old.types, moved_edges(job, store, x)[at].values),
{
    let list = edges::stored(store, job.old, x)->Ok_0;
    let seen = edges::visible(list, job.gone, job.direction, x);
    lemma_carried_kept(seen, job.far, at);
    let k = choose|k: int|
        0 <= k < seen.len() && seen[k].values == moved_edges(job, store, x)[at].values;
    edges::lemma_visible_kept(list, job.gone, job.direction, x, k);
    let i = choose|i: int| 0 <= i < list.len() && list[i] == seen[k];
    let group = layout::group_of(job.old.counts, x as int)->Some_0;
    let csr = old_csr(job, store, group)->Some_0;
    let slot = x - layout::rows_before(job.old.counts, group);
    assert(csr.slots[slot][i] == list[i]);
}

/// A moved edge at a row is one of the moved edges.
proof fn lemma_overlay_lawful(job: JobView, list: Seq<RelationshipView>, y: u64, at: int)
    requires
        forall|i: int|
            #![trigger list[i]]
            0 <= i < list.len() ==> edges::far(list[i], job.direction) < job.far.new_domain()
                && groups::values_fit(job.old.types, list[i].values),
        0 <= at < edges::incident(list, job.direction, y).len(),
    ensures
        edges::incident(list, job.direction, y)[at].neighbor < job.far.new_domain(),
        groups::values_fit(job.old.types, edges::incident(list, job.direction, y)[at].values),
    decreases list.len(),
{
    let shorter = list.drop_last();
    assert(list.last() == list[list.len() - 1]);
    if at < edges::incident(shorter, job.direction, y).len() {
        assert forall|i: int|
            #![trigger shorter[i]]
            0 <= i < shorter.len() implies edges::far(shorter[i], job.direction)
            < job.far.new_domain() && groups::values_fit(job.old.types, shorter[i].values) by {
            assert(shorter[i] == list[i]);
        }
        lemma_overlay_lawful(job, shorter, y, at);
    }
}

/// A new group is lawful.
proof fn lemma_rebuilt_lawful(job: JobView, store: Map<u64, GroupView>, group: int)
    requires
        job.wf(),
        job.moves_between(),
    ensures
        groups::edges_lawful(rebuilt(job, store, group), job.far.new_domain() as nat),
{
    let csr = rebuilt(job, store, group);
    let total = layout::total_rows(job.old.counts) as int;
    remap::law_new_domain(job.far);
    assert forall|slot: int, at: int|
        #![trigger csr.slots[slot][at]]
        0 <= slot < csr.slots.len() && 0 <= at < csr.slots[slot].len() implies csr.slots[slot][at].neighbor
        < job.far.new_domain() && groups::values_fit(csr.types, csr.slots[slot][at].values) by {
        let y = job.first_row(group) + slot;
        let base = arriving(job, store, y, total);
        if at < base.len() {
            let x = job.near.survivor_at(y)->Some_0;
            lemma_moved_lawful(job, store, x, at);
            assert(csr.slots[slot][at] == moved_edges(job, store, x)[at]);
        } else {
            lemma_overlay_lawful(job, job.overlay, y as u64, at - base.len());
            assert(csr.slots[slot][at] == edges::incident(job.overlay, job.direction, y as u64)[at
                - base.len()]);
        }
    }
}

/// What a rewrite from a group on does to a surviving row.
pub open spec fn row_rewritten(state: MergeView, job: JobView, group: nat, x: u64) -> bool {
    let after = rewrite(state, job, group)->Ok_0;
    job.near.survives(x) && job.near.moved(x) >= job.first_row(group as int) && job.row_readable(
        state.store,
        x,
    ) ==> edges::stored(
        after.store,
        job.new_side(after.ids),
        job.near.moved(x) as u64,
    ) == Ok::<Seq<EdgeView>, ErrorKind>(
        moved_edges(job, state.store, x) + edges::incident(
            job.overlay,
            job.direction,
            job.near.moved(x) as u64,
        ),
    )
}

/// A row's moved edges stay when a store grows.
proof fn lemma_moved_kept(
    job: JobView,
    old_store: Map<u64, GroupView>,
    new_store: Map<u64, GroupView>,
    x: u64,
)
    requires
        merge::extends(old_store, new_store),
        job.row_readable(old_store, x),
    ensures
        job.row_readable(new_store, x),
        moved_edges(job, new_store, x) == moved_edges(job, old_store, x),
{
    if edges::stored(old_store, job.old, x) is Ok {
        merge::lemma_stored_kept(old_store, new_store, job.old, job.old, x);
    } else {
        if edges::stored(new_store, job.old, x) is Ok {
            edges::lemma_gone_row(
                edges::stored(new_store, job.old, x)->Ok_0,
                job.gone,
                job.direction,
                x,
            );
            assert(moved_edges(job, new_store, x) =~= Seq::<EdgeView>::empty());
        }
    }
}

/// A group just placed holds each surviving row's edges.
proof fn lemma_placed_row(state: MergeView, job: JobView, group: nat, x: u64)
    requires
        job.wf(),
        job.moves_between(),
        group < job.new_counts.len(),
        state.ids.len() == group,
        merge::fresh(state.store, state.next),
        placed(state, job, group as int) is Ok,
        job.near.survives(x),
        layout::lies_in(job.new_counts, group as int, job.near.moved(x)),
    ensures
        ({
            let next = placed(state, job, group as int)->Ok_0;
            edges::stored(next.store, job.new_side(next.ids), job.near.moved(x) as u64) == Ok::<
                Seq<EdgeView>,
                ErrorKind,
            >(
                moved_edges(job, state.store, x) + edges::incident(
                    job.overlay,
                    job.direction,
                    job.near.moved(x) as u64,
                ),
            )
        }),
{
    let next = placed(state, job, group as int)->Ok_0;
    let side = job.new_side(next.ids);
    let y = job.near.moved(x);
    let csr = rebuilt(job, state.store, group as int);
    let slot = y - job.first_row(group as int);
    let total = layout::total_rows(job.old.counts) as int;
    remap::law_moved_is_a_row(job.near, x);
    remap::law_new_domain(job.far);
    layout::lemma_one_group(job.new_counts, group as int, y);
    lemma_rebuilt_lawful(job, state.store, group as int);
    if x >= total {
        layout::lemma_no_group(job.old.counts, x as int);
        assert(moved_edges(job, state.store, x) =~= Seq::<EdgeView>::empty());
    }
    assert(csr.slots[slot] == moved_edges(job, state.store, x) + edges::incident(
        job.overlay,
        job.direction,
        y as u64,
    ));
    if edgeless(csr) {
        assert(csr.slots[slot].len() == 0);
        assert(csr.slots[slot] =~= Seq::<EdgeView>::empty());
    } else {
        let id = next.ids[group as int];
        assert(edges::id_at(next.ids, group as int) == Some(id));
        assert(groups::csr_at(next.store, id, side.types, side.neighbor_rows) == Some(csr));
    }
}

/// What a rewrite does: each surviving row's edges are where it moves, the
/// visible ones whose neighbour survives.
pub proof fn lemma_rewrite(state: MergeView, job: JobView, group: nat)
    requires
        job.wf(),
        job.moves_between(),
        group <= job.new_counts.len(),
        state.ids.len() == group,
        merge::fresh(state.store, state.next),
        rewrite(state, job, group) is Ok,
    ensures
        ({
            let after = rewrite(state, job, group)->Ok_0;
            &&& merge::extends(state.store, after.store)
            &&& merge::fresh(after.store, after.next)
            &&& after.ids.len() == job.new_counts.len()
            &&& forall|h: int| 0 <= h < group ==> #[trigger] after.ids[h] == state.ids[h]
        }),
        forall|x: u64| #[trigger] row_rewritten(state, job, group, x),
    decreases job.new_counts.len() - group,
{
    let after = rewrite(state, job, group)->Ok_0;
    if group >= job.new_counts.len() {
        assert forall|x: u64| #[trigger] row_rewritten(state, job, group, x) by {
            if job.near.survives(x) {
                remap::law_moved_is_a_row(job.near, x);
            }
        }
    } else {
        let next = placed(state, job, group as int)->Ok_0;
        assert(merge::extends(state.store, next.store));
        lemma_rewrite(next, job, group + 1);
        assert(merge::extends(state.store, after.store)) by {
            assert forall|id: u64| #[trigger] state.store.dom().contains(id) implies
                after.store.dom().contains(id) && after.store[id] == state.store[id] by {
                assert(next.store.dom().contains(id));
            }
        }
        assert forall|h: int| 0 <= h < group implies #[trigger] after.ids[h] == state.ids[h] by {
            assert(after.ids[h] == next.ids[h]);
        }
        assert forall|x: u64| #[trigger] row_rewritten(state, job, group, x) by {
            if job.near.survives(x) && job.near.moved(x) >= job.first_row(group as int)
                && job.row_readable(state.store, x) {
                remap::law_moved_is_a_row(job.near, x);
                let y = job.near.moved(x);
                if layout::lies_in(job.new_counts, group as int, y) {
                    layout::lemma_one_group(job.new_counts, group as int, y);
                    lemma_placed_row(state, job, group, x);
                    assert(after.ids[group as int] == next.ids[group as int]);
                    merge::lemma_stored_kept(
                        next.store,
                        after.store,
                        job.new_side(next.ids),
                        job.new_side(after.ids),
                        y as u64,
                    );
                } else {
                    assert(row_rewritten(next, job, group + 1, x));
                    lemma_moved_kept(job, state.store, next.store, x);
                }
            }
        }
    }
}

} // verus!
