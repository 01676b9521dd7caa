//! What conflict detection keeps of recent commits.

use std::sync::Arc;

use vstd::prelude::*;

use crate::budget::MemoryBudget;
use crate::error::{invalid_argument, DevonResult, ErrorKind};
use crate::names::NameMap;
use crate::overlay::chain;
use crate::overlay::chain::refused;
use crate::overlay::delta;
use crate::overlay::delta::{estimated, map_tally};
use crate::picked;
use crate::shared::share;
use crate::tally::Tally;
use crate::text::with_number;
use crate::types::{text_len, Value, ValueView};

verus! {

/// Estimated bytes of a summary's maps and lists.
pub const COMMIT_SUMMARY_OVERHEAD_BYTES: usize = 96;

/// Estimated bytes of a table name in a summary.
pub const SUMMARY_TABLE_NAME_OVERHEAD_BYTES: usize = 24;

/// The keys and tables that a commit touched.
#[derive(Debug)]
pub struct CommitSummary {
    /// Per node table, the inserted keys.
    pub inserted_pks: NameMap<Vec<Value>>,
    /// Per node table, the updated and deleted keys.
    pub dml_pks: NameMap<Vec<Value>>,
    /// Per node table, the keys deleted together with their relationships.
    pub detach_pks: NameMap<Vec<Value>>,
    /// Per node table, the keys of the endpoints of inserted relationships.
    pub edge_endpoint_pks: NameMap<Vec<Value>>,
    /// The tables that the commit created.
    pub created_tables: Vec<String>,
}

/// What a summary says.
#[verifier::ext_equal]
pub struct SummaryView {
    pub inserted_pks: Map<Seq<char>, Seq<ValueView>>,
    pub dml_pks: Map<Seq<char>, Seq<ValueView>>,
    pub detach_pks: Map<Seq<char>, Seq<ValueView>>,
    pub edge_endpoint_pks: Map<Seq<char>, Seq<ValueView>>,
    pub created_tables: Seq<Seq<char>>,
}

/// What names say.
pub open spec fn spelled(names: Seq<String>) -> Seq<Seq<char>> {
    names.map_values(|name: String| name@)
}

impl View for CommitSummary {
    type V = SummaryView;

    open spec fn view(&self) -> SummaryView {
        SummaryView {
            inserted_pks: delta::values_by_name(self.inserted_pks@),
            dml_pks: delta::values_by_name(self.dml_pks@),
            detach_pks: delta::values_by_name(self.detach_pks@),
            edge_endpoint_pks: delta::values_by_name(self.edge_endpoint_pks@),
            created_tables: spelled(self.created_tables@),
        }
    }
}

/// The estimated bytes of table names.
pub open spec fn names_bytes(names: Seq<Seq<char>>) -> nat
    decreases names.len(),
{
    if names.len() == 0 {
        0
    } else {
        names_bytes(names.drop_last()) + SUMMARY_TABLE_NAME_OVERHEAD_BYTES as nat
            + vstd::utf8::encode_utf8(names.last()).len()
    }
}

fn names_tally(names: &Vec<String>) -> (total: Tally)
    ensures
        total.wf(),
        total@ == names_bytes(spelled(names@)),
{
    let ghost shown = spelled(names@);
    let mut total: Tally = Tally::of(0);
    let mut i: usize = 0;
    assert(shown.subrange(0, 0) =~= Seq::empty());
    while i < names.len()
        invariant
            i <= names@.len(),
            shown == spelled(names@),
            total.wf(),
            total@ == names_bytes(shown.subrange(0, i as int)),
        decreases names@.len() - i,
    {
        proof {
            let next = shown.subrange(0, i + 1);
            assert(next.drop_last() =~= shown.subrange(0, i as int));
            assert(next.last() == names@[i as int]@);
        }
        total = total.plus(&Tally::of(SUMMARY_TABLE_NAME_OVERHEAD_BYTES as u64)).plus(
            &Tally::of(text_len(names[i].as_str()) as u64),
        );
        i += 1;
    }
    assert(shown.subrange(0, shown.len() as int) =~= shown);
    total
}

impl CommitSummary {
    /// The names of all maps are in order.
    pub open spec fn wf(self) -> bool {
        &&& self.inserted_pks.wf()
        &&& self.dml_pks.wf()
        &&& self.detach_pks.wf()
        &&& self.edge_endpoint_pks.wf()
    }

    /// The estimated bytes of what the maps and lists hold.
    pub open spec fn held_bytes(self) -> nat {
        delta::named_bytes(self.inserted_pks.entries()) + delta::named_bytes(
            self.dml_pks.entries(),
        ) + delta::named_bytes(self.detach_pks.entries()) + delta::named_bytes(
            self.edge_endpoint_pks.entries(),
        ) + names_bytes(spelled(self.created_tables@))
    }

    /// The estimated bytes.
    pub open spec fn bytes(self) -> nat {
        COMMIT_SUMMARY_OVERHEAD_BYTES as nat + self.held_bytes()
    }

    /// A summary of inserted keys and created tables.
    pub fn new(inserted_pks: NameMap<Vec<Value>>, created_tables: Vec<String>) -> (summary:
        CommitSummary)
        requires
            inserted_pks.wf(),
        ensures
            summary.wf(),
            summary.inserted_pks == inserted_pks,
            summary.created_tables == created_tables,
            summary@ == (SummaryView {
                inserted_pks: delta::values_by_name(inserted_pks@),
                dml_pks: Map::empty(),
                detach_pks: Map::empty(),
                edge_endpoint_pks: Map::empty(),
                created_tables: spelled(created_tables@),
            }),
            summary.held_bytes() == delta::named_bytes(inserted_pks.entries()) + names_bytes(
                spelled(created_tables@),
            ),
    {
        CommitSummary::new_with_dml(inserted_pks, NameMap::new(), created_tables)
    }

    /// A summary that also has updated and deleted keys.
    pub fn new_with_dml(
        inserted_pks: NameMap<Vec<Value>>,
        dml_pks: NameMap<Vec<Value>>,
        created_tables: Vec<String>,
    ) -> (summary: CommitSummary)
        requires
            inserted_pks.wf(),
            dml_pks.wf(),
        ensures
            summary.wf(),
            summary.inserted_pks == inserted_pks,
            summary.dml_pks == dml_pks,
            summary.created_tables == created_tables,
            summary@ == (SummaryView {
                inserted_pks: delta::values_by_name(inserted_pks@),
                dml_pks: delta::values_by_name(dml_pks@),
                detach_pks: Map::empty(),
                edge_endpoint_pks: Map::empty(),
                created_tables: spelled(created_tables@),
            }),
            summary.held_bytes() == delta::named_bytes(inserted_pks.entries())
                + delta::named_bytes(dml_pks.entries()) + names_bytes(spelled(created_tables@)),
    {
        let summary = CommitSummary::new_with_detach_claims(
            inserted_pks,
            dml_pks,
            NameMap::new(),
            NameMap::new(),
            created_tables,
        );
        assert(summary@.detach_pks =~= Map::empty());
        assert(summary@.edge_endpoint_pks =~= Map::empty());
        summary
    }

    /// A summary of all that conflicts are about.
    pub fn new_with_detach_claims(
        inserted_pks: NameMap<Vec<Value>>,
        dml_pks: NameMap<Vec<Value>>,
        detach_pks: NameMap<Vec<Value>>,
        edge_endpoint_pks: NameMap<Vec<Value>>,
        created_tables: Vec<String>,
    ) -> (summary: CommitSummary)
        requires
            inserted_pks.wf(),
            dml_pks.wf(),
            detach_pks.wf(),
            edge_endpoint_pks.wf(),
        ensures
            summary.wf(),
            summary.inserted_pks == inserted_pks,
            summary.dml_pks == dml_pks,
            summary.detach_pks == detach_pks,
            summary.edge_endpoint_pks == edge_endpoint_pks,
            summary.created_tables == created_tables,
    {
        CommitSummary { inserted_pks, dml_pks, detach_pks, edge_endpoint_pks, created_tables }
    }

    /// The bytes that this takes in memory, by estimate.
    pub fn estimated_bytes(&self) -> (result: DevonResult<usize>)
        requires
            self.wf(),
        ensures
            match result {
                Ok(bytes) => bytes == self.bytes(),
                Err(error) => self.bytes() > usize::MAX && error.kind_of()
                    == ErrorKind::BudgetExceeded,
            },
    {
        self.estimated_bytes_with_base(COMMIT_SUMMARY_OVERHEAD_BYTES)
    }

    /// The bytes that this takes in memory on top of others, by estimate.
    pub fn estimated_bytes_with_base(&self, base: usize) -> (result: DevonResult<usize>)
        requires
            self.wf(),
        ensures
            match result {
                Ok(bytes) => bytes == base + self.held_bytes(),
                Err(error) => base + self.held_bytes() > usize::MAX && error.kind_of()
                    == ErrorKind::BudgetExceeded,
            },
    {
        let total: Tally = Tally::of(base as u64).plus(&map_tally(&self.inserted_pks)).plus(
            &map_tally(&self.dml_pks),
        ).plus(&map_tally(&self.detach_pks)).plus(&map_tally(&self.edge_endpoint_pks)).plus(
            &names_tally(&self.created_tables),
        );
        estimated(&total)
    }

    /// A summary to be kept; the budget is charged for it.
    pub fn new_arc(summary: CommitSummary, budget: &mut MemoryBudget) -> (result: DevonResult<
        ChargedSummary,
    >)
        requires
            summary.wf(),
        ensures
            final(budget).limit_of() == old(budget).limit_of(),
            match result {
                Ok(kept) => {
                    &&& old(budget).charged_of() + summary.bytes() <= old(budget).limit_of()
                    &&& final(budget).charged_of() == old(budget).charged_of() + summary.bytes()
                    &&& kept.summary == Arc::new(summary)
                    &&& kept.charged_bytes == summary.bytes()
                },
                Err(error) => {
                    &&& old(budget).charged_of() + summary.bytes() > old(budget).limit_of()
                    &&& final(budget).charged_of() == old(budget).charged_of()
                    &&& error.kind_of() == ErrorKind::BudgetExceeded
                },
            },
    {
        let bytes: usize = match summary.estimated_bytes() {
            Ok(bytes) => bytes,
            Err(error) => {
                proof {
                    budget.lemma_limit();
                }
                return Err(error);
            },
        };
        if !budget.try_charge(bytes) {
            return Err(refused("commit summary requested ", bytes, budget));
        }
        Ok(ChargedSummary { summary: Arc::new(summary), charged_bytes: bytes })
    }

    /// A summary to be kept whose bytes the caller has charged already:
    /// exactly those that it takes.
    pub fn new_arc_reserved(summary: CommitSummary, reserved_bytes: usize) -> (result: DevonResult<
        ChargedSummary,
    >)
        requires
            summary.wf(),
        ensures
            match result {
                Ok(kept) => {
                    &&& reserved_bytes == summary.bytes()
                    &&& kept.summary == Arc::new(summary)
                    &&& kept.charged_bytes == reserved_bytes
                },
                Err(error) => {
                    &&& reserved_bytes != summary.bytes()
                    &&& error.kind_of() == if summary.bytes() > usize::MAX {
                        ErrorKind::BudgetExceeded
                    } else {
                        ErrorKind::InvalidArgument
                    }
                },
            },
    {
        let bytes: usize = match summary.estimated_bytes() {
            Ok(bytes) => bytes,
            Err(error) => {
                return Err(error);
            },
        };
        if bytes != reserved_bytes {
            let head: String = with_number(
                "commit summary reservation of ",
                reserved_bytes as u64,
                " bytes does not match the estimate of ",
            );
            return Err(
                invalid_argument(with_number(head.as_str(), bytes as u64, " bytes").as_str()),
            );
        }
        Ok(ChargedSummary { summary: Arc::new(summary), charged_bytes: reserved_bytes })
    }
}

/// A summary that is kept, and the bytes that the budget is charged for it.
#[derive(Debug)]
pub struct ChargedSummary {
    pub summary: Arc<CommitSummary>,
    pub charged_bytes: usize,
}

impl ChargedSummary {
    /// The bytes that the budget is charged for this.
    pub fn charged_bytes(&self) -> (bytes: usize)
        ensures
            bytes == self.charged_bytes,
    {
        self.charged_bytes
    }

    /// Gives the charge back. There is none afterwards, so that giving it
    /// back again changes nothing.
    pub fn release_charge(&mut self, budget: &mut MemoryBudget)
        ensures
            final(self).summary == old(self).summary,
            final(self).charged_bytes == 0,
            final(budget).limit_of() == old(budget).limit_of(),
            final(budget).charged_of() == chain::released(
                old(budget).charged_of(),
                old(self).charged_bytes as nat,
            ),
    {
        budget.release(self.charged_bytes);
        self.charged_bytes = 0;
    }
}

/// The charges of kept summaries whose commit is not newer than `minimum`.
pub open spec fn pruned_charges(list: Seq<(u64, ChargedSummary)>, minimum: u64) -> nat
    decreases list.len(),
{
    if list.len() == 0 {
        0
    } else {
        pruned_charges(list.drop_last(), minimum) + if list.last().0 > minimum {
            0nat
        } else {
            list.last().1.charged_bytes as nat
        }
    }
}

/// The charges of all kept summaries.
pub open spec fn all_charges(list: Seq<(u64, ChargedSummary)>) -> nat
    decreases list.len(),
{
    if list.len() == 0 {
        0
    } else {
        all_charges(list.drop_last()) + list.last().1.charged_bytes as nat
    }
}

/// The kept summaries whose commit is newer than `minimum`.
pub open spec fn newer(list: Seq<(u64, ChargedSummary)>, minimum: u64) -> Seq<
    (u64, ChargedSummary),
>
    decreases list.len(),
{
    if list.len() == 0 {
        Seq::empty()
    } else if list.last().0 > minimum {
        newer(list.drop_last(), minimum).push(list.last())
    } else {
        newer(list.drop_last(), minimum)
    }
}

/// Pruning keeps every summary whose commit is newer, in order, and no other.
pub proof fn law_newer_summaries_are_kept(list: Seq<(u64, ChargedSummary)>, minimum: u64)
    ensures
        picked::keeps(
            newer(list, minimum),
            list,
            |entry: (u64, ChargedSummary)| entry.0 > minimum,
        ),
    decreases list.len(),
{
    let wanted = |entry: (u64, ChargedSummary)| entry.0 > minimum;
    if list.len() == 0 {
        picked::lemma_keeps_none(list, wanted);
    } else {
        law_newer_summaries_are_kept(list.drop_last(), minimum);
        assert(list =~= list.drop_last().push(list.last()));
        picked::lemma_keeps_more(
            newer(list.drop_last(), minimum),
            list.drop_last(),
            wanted,
            list.last(),
        );
    }
}

/// The same summaries, without charges.
pub open spec fn uncharged(list: Seq<(u64, ChargedSummary)>) -> Seq<(u64, ChargedSummary)> {
    list.map_values(
        |entry: (u64, ChargedSummary)|
            (entry.0, ChargedSummary { summary: entry.1.summary, charged_bytes: 0 }),
    )
}

/// The summaries whose commit is newer than a snapshot's, in order, sharing
/// what they say. Their charges move with them; the others' are given back.
pub fn prune_recent_summaries(
    recent_summaries: &mut Vec<(u64, ChargedSummary)>,
    minimum_snapshot_lsn: u64,
    budget: &mut MemoryBudget,
) -> (retained: Vec<(u64, ChargedSummary)>)
    ensures
        retained@ == newer(old(recent_summaries)@, minimum_snapshot_lsn),
        final(recent_summaries)@ == uncharged(old(recent_summaries)@),
        final(budget).limit_of() == old(budget).limit_of(),
        final(budget).charged_of() == chain::released(
            old(budget).charged_of(),
            pruned_charges(old(recent_summaries)@, minimum_snapshot_lsn),
        ),
{
    let ghost all = recent_summaries@;
    let ghost first = budget.charged_of();
    let mut retained: Vec<(u64, ChargedSummary)> = Vec::new();
    let mut i: usize = 0;
    assert(all.subrange(0, 0) =~= Seq::empty());
    while i < recent_summaries.len()
        invariant
            i <= all.len() == recent_summaries@.len(),
            all == old(recent_summaries)@,
            first == old(budget).charged_of(),
            forall|k: int| 0 <= k < i ==> #[trigger] recent_summaries@[k] == uncharged(all)[k],
            forall|k: int| i <= k < all.len() ==> #[trigger] recent_summaries@[k] == all[k],
            retained@ == newer(all.subrange(0, i as int), minimum_snapshot_lsn),
            budget.limit_of() == old(budget).limit_of(),
            budget.charged_of() == chain::released(
                first,
                pruned_charges(all.subrange(0, i as int), minimum_snapshot_lsn),
            ),
        decreases all.len() - i,
    {
        proof {
            let next = all.subrange(0, i + 1);
            assert(next.drop_last() =~= all.subrange(0, i as int));
            assert(recent_summaries@[i as int] == all[i as int]);
        }
        let lsn: u64 = recent_summaries[i].0;
        let charged_bytes: usize = recent_summaries[i].1.charged_bytes;
        let summary: Arc<CommitSummary> = share(&recent_summaries[i].1.summary);
        let same: Arc<CommitSummary> = share(&summary);
        if lsn > minimum_snapshot_lsn {
            retained.push((lsn, ChargedSummary { summary, charged_bytes }));
        } else {
            budget.release(charged_bytes);
        }
        recent_summaries.set(i, (lsn, ChargedSummary { summary: same, charged_bytes: 0 }));
        i += 1;
    }
    assert(all.subrange(0, all.len() as int) =~= all);
    assert(recent_summaries@ =~= uncharged(all));
    retained
}

/// Gives all charges back.
pub fn clear_recent_summaries(
    recent_summaries: &mut Vec<(u64, ChargedSummary)>,
    budget: &mut MemoryBudget,
)
    ensures
        final(recent_summaries)@ == uncharged(old(recent_summaries)@),
        final(budget).limit_of() == old(budget).limit_of(),
        final(budget).charged_of() == chain::released(
            old(budget).charged_of(),
            all_charges(old(recent_summaries)@),
        ),
{
    let ghost all = recent_summaries@;
    let ghost first = budget.charged_of();
    let mut i: usize = 0;
    assert(all.subrange(0, 0) =~= Seq::empty());
    while i < recent_summaries.len()
        invariant
            i <= all.len() == recent_summaries@.len(),
            all == old(recent_summaries)@,
            first == old(budget).charged_of(),
            forall|k: int| 0 <= k < i ==> #[trigger] recent_summaries@[k] == uncharged(all)[k],
            forall|k: int| i <= k < all.len() ==> #[trigger] recent_summaries@[k] == all[k],
            budget.limit_of() == old(budget).limit_of(),
            budget.charged_of() == chain::released(
                first,
                all_charges(all.subrange(0, i as int)),
            ),
        decreases all.len() - i,
    {
        proof {
            let next = all.subrange(0, i + 1);
            assert(next.drop_last() =~= all.subrange(0, i as int));
            assert(recent_summaries@[i as int] == all[i as int]);
        }
        let lsn: u64 = recent_summaries[i].0;
        budget.release(recent_summaries[i].1.charged_bytes);
        let same: Arc<CommitSummary> = share(&recent_summaries[i].1.summary);
        recent_summaries.set(i, (lsn, ChargedSummary { summary: same, charged_bytes: 0 }));
        i += 1;
    }
    assert(all.subrange(0, all.len() as int) =~= all);
    assert(recent_summaries@ =~= uncharged(all));
}

/// Pruning neither loses nor doubles a charge: what the kept summaries hold
/// and what is given back are together what was held.
pub proof fn law_charges_are_kept(list: Seq<(u64, ChargedSummary)>, minimum: u64)
    ensures
        all_charges(newer(list, minimum)) + pruned_charges(list, minimum) == all_charges(list),
        all_charges(uncharged(list)) == 0,
    decreases list.len(),
{
    if list.len() > 0 {
        law_charges_are_kept(list.drop_last(), minimum);
        let kept = newer(list.drop_last(), minimum);
        assert(kept.push(list.last()).drop_last() =~= kept);
        assert(uncharged(list).drop_last() =~= uncharged(list.drop_last()));
    }
}

} // verus!
