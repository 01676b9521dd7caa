//! The chain of committed deltas, newest first, and what readers see in it.

use std::sync::Arc;

use vstd::prelude::*;

use crate::budget::MemoryBudget;
use crate::error::{budget_exceeded, invalid_argument, DevonError, DevonResult, ErrorKind};
use crate::overlay::delta::{
    estimated, CommitDelta, DeltaView, COMMIT_LINK_OVERHEAD_BYTES,
};
use crate::shared::take_unshared;
use crate::tally::Tally;
use crate::text::with_number;

verus! {

/// One commit, and the next older one.
#[derive(Debug)]
pub struct CommitLink {
    /// The next older commit.
    pub prev: Option<Arc<CommitLink>>,
    /// The log position of the commit record.
    pub commit_lsn: u64,
    /// What the commit changes.
    pub delta: CommitDelta,
    /// The bytes that the memory budget is charged for this link.
    pub charged_bytes: usize,
}

/// The links of a chain, the oldest first.
pub open spec fn links(head: Option<Arc<CommitLink>>) -> Seq<CommitLink>
    decreases head,
{
    match head {
        None => Seq::empty(),
        Some(link) => links(link.prev).push(*link),
    }
}

/// The deltas of links.
pub open spec fn deltas(list: Seq<CommitLink>) -> Seq<DeltaView> {
    list.map_values(|link: CommitLink| link.delta@)
}

/// The deltas of all links are in order.
pub open spec fn chain_wf(head: Option<Arc<CommitLink>>) -> bool {
    forall|i: int| 0 <= i < links(head).len() ==> (#[trigger] links(head)[i]).delta.wf()
}

/// The bytes that links are charged.
pub open spec fn charges(list: Seq<CommitLink>) -> nat
    decreases list.len(),
{
    if list.len() == 0 {
        0
    } else {
        charges(list.drop_last()) + list.last().charged_bytes as nat
    }
}

/// What is left of a charge once bytes are given back.
pub open spec fn released(charged: nat, bytes: nat) -> nat {
    if bytes <= charged {
        (charged - bytes) as nat
    } else {
        0
    }
}

/// What a link of a delta is charged.
pub open spec fn link_bytes(delta: CommitDelta) -> nat {
    COMMIT_LINK_OVERHEAD_BYTES as nat + delta.bytes()
}

fn link_estimate(delta: &CommitDelta) -> (result: DevonResult<usize>)
    requires
        delta.wf(),
    ensures
        match result {
            Ok(bytes) => bytes == link_bytes(*delta),
            Err(error) => link_bytes(*delta) > usize::MAX && error.kind_of()
                == ErrorKind::BudgetExceeded,
        },
{
    match delta.estimated_bytes() {
        Ok(bytes) => estimated(
            &Tally::of(COMMIT_LINK_OVERHEAD_BYTES as u64).plus(&Tally::of(bytes as u64)),
        ),
        Err(error) => Err(error),
    }
}

/// The refusal of a charge.
pub(crate) fn refused(what: &str, bytes: usize, budget: &MemoryBudget) -> (error: DevonError)
    ensures
        error.kind_of() == ErrorKind::BudgetExceeded,
{
    let head: String = with_number(what, bytes as u64, " bytes with ");
    let middle: String = with_number(
        head.as_str(),
        budget.charged() as u64,
        " bytes charged and limit ",
    );
    budget_exceeded(with_number(middle.as_str(), budget.limit() as u64, "").as_str())
}

impl CommitLink {
    /// A link in front of a chain; the budget is charged for it.
    pub fn new(
        prev: Option<Arc<CommitLink>>,
        commit_lsn: u64,
        delta: CommitDelta,
        budget: &mut MemoryBudget,
    ) -> (result: DevonResult<CommitLink>)
        requires
            delta.wf(),
        ensures
            final(budget).limit_of() == old(budget).limit_of(),
            match result {
                Ok(link) => {
                    &&& old(budget).charged_of() + link_bytes(delta) <= old(budget).limit_of()
                    &&& final(budget).charged_of() == old(budget).charged_of() + link_bytes(delta)
                    &&& link.prev == prev
                    &&& link.commit_lsn == commit_lsn
                    &&& link.delta == delta
                    &&& link.charged_bytes == link_bytes(delta)
                },
                Err(error) => {
                    &&& old(budget).charged_of() + link_bytes(delta) > old(budget).limit_of()
                    &&& final(budget).charged_of() == old(budget).charged_of()
                    &&& error.kind_of() == ErrorKind::BudgetExceeded
                },
            },
    {
        let charged_bytes: usize = match link_estimate(&delta) {
            Ok(bytes) => bytes,
            Err(error) => {
                proof {
                    budget.lemma_limit();
                }
                return Err(error);
            },
        };
        if !budget.try_charge(charged_bytes) {
            return Err(refused("committed overlay requested ", charged_bytes, budget));
        }
        Ok(CommitLink { prev, commit_lsn, delta, charged_bytes })
    }

    /// A link in front of a chain, to be shared; the budget is charged for
    /// it.
    pub fn new_arc(
        prev: Option<Arc<CommitLink>>,
        commit_lsn: u64,
        delta: CommitDelta,
        budget: &mut MemoryBudget,
    ) -> (result: DevonResult<Arc<CommitLink>>)
        requires
            delta.wf(),
        ensures
            final(budget).limit_of() == old(budget).limit_of(),
            match result {
                Ok(link) => {
                    &&& old(budget).charged_of() + link_bytes(delta) <= old(budget).limit_of()
                    &&& final(budget).charged_of() == old(budget).charged_of() + link_bytes(delta)
                    &&& link.prev == prev
                    &&& link.commit_lsn == commit_lsn
                    &&& link.delta == delta
                    &&& link.charged_bytes == link_bytes(delta)
                },
                Err(error) => {
                    &&& old(budget).charged_of() + link_bytes(delta) > old(budget).limit_of()
                    &&& final(budget).charged_of() == old(budget).charged_of()
                    &&& error.kind_of() == ErrorKind::BudgetExceeded
                },
            },
    {
        match CommitLink::new(prev, commit_lsn, delta, budget) {
            Ok(link) => Ok(Arc::new(link)),
            Err(error) => Err(error),
        }
    }

    /// A link in front of a chain whose bytes the caller has charged
    /// already: exactly those that it takes.
    pub fn new_arc_reserved(
        prev: Option<Arc<CommitLink>>,
        commit_lsn: u64,
        delta: CommitDelta,
        reserved_bytes: usize,
    ) -> (result: DevonResult<Arc<CommitLink>>)
        requires
            delta.wf(),
        ensures
            match result {
                Ok(link) => {
                    &&& reserved_bytes == link_bytes(delta)
                    &&& link.prev == prev
                    &&& link.commit_lsn == commit_lsn
                    &&& link.delta == delta
                    &&& link.charged_bytes == reserved_bytes
                },
                Err(error) => {
                    &&& reserved_bytes != link_bytes(delta)
                    &&& error.kind_of() == if link_bytes(delta) > usize::MAX {
                        ErrorKind::BudgetExceeded
                    } else {
                        ErrorKind::InvalidArgument
                    }
                },
            },
    {
        let charged_bytes: usize = match link_estimate(&delta) {
            Ok(bytes) => bytes,
            Err(error) => {
                return Err(error);
            },
        };
        if charged_bytes != reserved_bytes {
            let head: String = with_number(
                "commit reservation of ",
                reserved_bytes as u64,
                " bytes does not match the link estimate of ",
            );
            return Err(
                invalid_argument(
                    with_number(head.as_str(), charged_bytes as u64, " bytes").as_str(),
                ),
            );
        }
        Ok(Arc::new(CommitLink { prev, commit_lsn, delta, charged_bytes }))
    }
}

/// The charges of a list in two parts.
proof fn lemma_charges_joined(a: Seq<CommitLink>, b: Seq<CommitLink>)
    ensures
        charges(a + b) == charges(a) + charges(b),
    decreases b.len(),
{
    if b.len() == 0 {
        assert(a + b =~= a);
    } else {
        lemma_charges_joined(a, b.drop_last());
        assert((a + b).drop_last() =~= a + b.drop_last());
    }
}

/// Giving the charges of links back undoes charging them.
pub proof fn law_release_undoes_charge(charged: nat, list: Seq<CommitLink>)
    ensures
        released(charged + charges(list), charges(list)) == charged,
{
}

/// What becomes of a link that was let go of, given whether it was the last hold on it: a link that
/// nobody else holds goes, its charge is given back, and the link before it is left; one that
/// someone else holds stays. Whether the link went, and what is left.
pub fn settle_link(answer: Result<CommitLink, Arc<CommitLink>>, budget: &mut MemoryBudget) -> (
outcome: (bool, Option<Arc<CommitLink>>))
    ensures
        final(budget).limit_of() == old(budget).limit_of(),
        match answer {
            Ok(owned) => {
                &&& outcome == (true, owned.prev)
                &&& final(budget).charged_of() == released(
                    old(budget).charged_of(),
                    owned.charged_bytes as nat,
                )
            },
            Err(kept) => {
                &&& outcome == (false, Some(kept))
                &&& final(budget).charged_of() == old(budget).charged_of()
            },
        },
{
    match answer {
        Ok(owned) => {
            budget.release(owned.charged_bytes);
            (true, owned.prev)
        },
        Err(kept) => (false, Some(kept)),
    }
}

/// Lets go of a chain. The links that nobody else holds go, newest first,
/// and their charges are given back; what is left begins at the first link
/// that someone else holds, who goes on to hold it.
pub fn release_chain(head: Option<Arc<CommitLink>>, budget: &mut MemoryBudget) -> (rest: Option<
    Arc<CommitLink>,
>)
    ensures
        links(rest).is_prefix_of(links(head)),
        final(budget).limit_of() == old(budget).limit_of(),
        final(budget).charged_of() == released(
            old(budget).charged_of(),
            charges(links(head).skip(links(rest).len() as int)),
        ),
{
    let ghost all = links(head);
    let ghost first = budget.charged_of();
    let mut rest: Option<Arc<CommitLink>> = head;
    assert(all.skip(all.len() as int) =~= Seq::empty());
    loop
        invariant
            all == links(head),
            links(rest).is_prefix_of(all),
            first == old(budget).charged_of(),
            budget.limit_of() == old(budget).limit_of(),
            budget.charged_of() == released(first, charges(all.skip(links(rest).len() as int))),
        decreases links(rest).len(),
    {
        let link: Arc<CommitLink> = match rest {
            Some(link) => link,
            None => {
                return None;
            },
        };
        let ghost held = links(Some(link));
        let answer: Result<CommitLink, Arc<CommitLink>> = take_unshared(link);
        proof {
            if answer is Ok {
                let owned = answer->Ok_0;
                let part = all.skip(held.len() - 1);
                assert(links(owned.prev) =~= held.drop_last());
                assert(all[held.len() - 1] == owned) by {
                    assert(held[held.len() - 1] == owned);
                }
                assert(part =~= seq![owned] + all.skip(held.len() as int));
                lemma_charges_joined(seq![owned], all.skip(held.len() as int));
                assert(seq![owned].drop_last() =~= Seq::empty());
                assert(charges(seq![owned]) == owned.charged_bytes) by {
                    reveal_with_fuel(charges, 2);
                }
            }
        }
        let (freed, left): (bool, Option<Arc<CommitLink>>) = settle_link(answer, budget);
        if !freed {
            return left;
        }
        rest = left;
    }
}

/// The links of a chain, the oldest first.
pub fn commit_links_oldest_first(head: &Option<Arc<CommitLink>>) -> (list: Vec<&CommitLink>)
    ensures
        list@.len() == links(*head).len(),
        forall|i: int| 0 <= i < list@.len() ==> *(#[trigger] list@[i]) == links(*head)[i],
{
    let ghost all = links(*head);
    let mut turned: Vec<&CommitLink> = Vec::new();
    let mut current: &Option<Arc<CommitLink>> = head;
    loop
        invariant
            all == links(*head),
            links(*current).len() + turned@.len() == all.len(),
            links(*current) == all.subrange(0, links(*current).len() as int),
            forall|i: int|
                0 <= i < turned@.len() ==> *(#[trigger] turned@[i]) == all[all.len() - 1 - i],
        ensures
            turned@.len() == all.len(),
            forall|i: int|
                0 <= i < turned@.len() ==> *(#[trigger] turned@[i]) == all[all.len() - 1 - i],
        decreases links(*current).len(),
    {
        match current {
            Some(link) => {
                proof {
                    let held = links(*current);
                    assert(held.last() == all[held.len() - 1]);
                    assert(links(link.prev) =~= held.drop_last());
                    assert(links(link.prev) =~= all.subrange(0, held.len() - 1));
                }
                turned.push(&**link);
                current = &link.prev;
            },
            None => {
                break ;
            },
        }
    }
    let mut list: Vec<&CommitLink> = Vec::new();
    let mut i: usize = turned.len();
    while i > 0
        invariant
            i <= turned@.len() == all.len(),
            list@.len() == turned@.len() - i,
            forall|k: int|
                0 <= k < turned@.len() ==> *(#[trigger] turned@[k]) == all[all.len() - 1 - k],
            forall|k: int| 0 <= k < list@.len() ==> *(#[trigger] list@[k]) == all[k],
        decreases i,
    {
        i -= 1;
        list.push(turned[i]);
    }
    list
}

} // verus!
