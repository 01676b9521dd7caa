//! The committed state of the database at one instant.

use std::sync::Arc;

use vstd::prelude::*;

use crate::catalog;
use crate::catalog::Catalog;
use crate::error::{corrupt, not_found, DevonResult, ErrorKind};
use crate::node_table;
use crate::node_table::effects::NodeDmlEffects;
use crate::node_table::primary_key_column;
use crate::overlay::chain;
use crate::overlay::chain::{commit_links_oldest_first, CommitLink};
use crate::overlay::delta::OverlayEdge;
use crate::overlay::merge;
use crate::overlay::merge::{
    node_dml_effects, node_rows_oldest_first, node_slots_oldest_first, rel_edges_oldest_first,
    rel_tombstones_oldest_first, OverlayNodeSlot,
};
use crate::overlay::summary::ChargedSummary;
use crate::overlay::RelEndpointTombstones;
use crate::text::with_name;
use crate::types::Value;

verus! {

/// What readers that start now see.
#[derive(Debug)]
pub struct PublishedState {
    /// The tables and where they are stored.
    pub catalog: Arc<Catalog>,
    /// The newest commit; none right after a checkpoint.
    pub chain: Option<Arc<CommitLink>>,
    /// The log position of the newest commit.
    pub last_commit_lsn: u64,
    /// The checkpoint that wrote the catalog's pages. Readers pin it, not
    /// the position of the newest commit, which is never older: the pages
    /// that the catalog names stay as long as this is pinned.
    pub catalog_generation: u64,
    /// Summaries of recent commits, the newest last.
    pub recent_summaries: Vec<(u64, ChargedSummary)>,
}

/// The first primary key column of a table, zero where there is none.
pub open spec fn key_column_or_first(catalog: catalog::CatalogView, table: Seq<char>) -> nat {
    match catalog::node_of(catalog, table) {
        Some(entry) => match node_table::key_column(entry.schema.columns, 0) {
            Some(at) => at,
            None => 0,
        },
        None => 0,
    }
}

/// A sum in memory, the most that it can hold where it is more.
pub open spec fn fitted(sum: nat) -> nat {
    if sum <= usize::MAX {
        sum
    } else {
        usize::MAX as nat
    }
}

/// The estimated bytes of summaries; one that takes more than memory holds
/// counts nothing.
pub open spec fn summary_bytes(list: Seq<(u64, ChargedSummary)>) -> nat
    decreases list.len(),
{
    if list.len() == 0 {
        0
    } else {
        let bytes = list.last().1.summary.bytes();
        summary_bytes(list.drop_last()) + if bytes <= usize::MAX {
            bytes
        } else {
            0
        }
    }
}

impl PublishedState {
    /// The maps of all deltas and summaries are in order.
    pub open spec fn wf(self) -> bool {
        &&& chain::chain_wf(self.chain)
        &&& forall|i: int|
            0 <= i < self.recent_summaries@.len() ==> (
            #[trigger] self.recent_summaries@[i]).1.summary.wf()
    }

    /// The commits, the oldest first.
    pub fn commit_links_oldest_first(&self) -> (list: Vec<&CommitLink>)
        ensures
            list@.len() == chain::links(self.chain).len(),
            forall|i: int|
                0 <= i < list@.len() ==> *(#[trigger] list@[i]) == chain::links(self.chain)[i],
    {
        commit_links_oldest_first(&self.chain)
    }

    /// The bytes of commits and summaries: what a checkpoint would free.
    pub fn overlay_charged_bytes(&self) -> (bytes: usize)
        requires
            self.wf(),
        ensures
            bytes == fitted(
                chain::charges(chain::links(self.chain)) + summary_bytes(self.recent_summaries@),
            ),
    {
        let ghost all = chain::links(self.chain);
        let links: Vec<&CommitLink> = commit_links_oldest_first(&self.chain);
        let mut total: usize = 0;
        let mut i: usize = 0;
        assert(all.subrange(0, 0) =~= Seq::empty());
        while i < links.len()
            invariant
                all == chain::links(self.chain),
                i <= links@.len() == all.len(),
                forall|k: int| 0 <= k < links@.len() ==> *(#[trigger] links@[k]) == all[k],
                total == fitted(chain::charges(all.subrange(0, i as int))),
            decreases links@.len() - i,
        {
            proof {
                let next = all.subrange(0, i + 1);
                assert(next.drop_last() =~= all.subrange(0, i as int));
                assert(*links@[i as int] == all[i as int]);
            }
            total = total.saturating_add(links[i].charged_bytes);
            i += 1;
        }
        assert(all.subrange(0, all.len() as int) =~= all);
        let ghost list = self.recent_summaries@;
        let ghost first = chain::charges(all);
        let mut k: usize = 0;
        assert(list.subrange(0, 0) =~= Seq::empty());
        while k < self.recent_summaries.len()
            invariant
                self.wf(),
                list == self.recent_summaries@,
                k <= list.len(),
                total == fitted(first + summary_bytes(list.subrange(0, k as int))),
            decreases list.len() - k,
        {
            proof {
                let next = list.subrange(0, k + 1);
                assert(next.drop_last() =~= list.subrange(0, k as int));
                assert(self.recent_summaries@[k as int].1.summary.wf());
            }
            let bytes: usize = match self.recent_summaries[k].1.summary.estimated_bytes() {
                Ok(bytes) => bytes,
                Err(_) => 0,
            };
            total = total.saturating_add(bytes);
            k += 1;
        }
        assert(list.subrange(0, list.len() as int) =~= list);
        total
    }

    fn key_column(&self, table: &str) -> (at: usize)
        ensures
            at == key_column_or_first(self.catalog@, table@),
    {
        match self.catalog.node_table(table) {
            Some(schema) => match primary_key_column(&schema.columns) {
                Some(at) => at,
                None => 0,
            },
            None => 0,
        }
    }

    /// A node table's inserted rows that are there, in order.
    pub fn node_rows(&self, table: &str) -> (rows: Vec<&Vec<Value>>)
        requires
            self.wf(),
        ensures
            merge::rows_shown(rows@) == merge::there(
                merge::slots_in(
                    self.chain,
                    table@,
                    key_column_or_first(self.catalog@, table@) as int,
                ).rows,
            ),
    {
        node_rows_oldest_first(&self.chain, table, self.key_column(table))
    }

    /// Every place that a node table's inserted rows were given, with the
    /// row; nothing where it was deleted.
    pub fn node_slots(&self, table: &str) -> (slots: Vec<OverlayNodeSlot<'_>>)
        requires
            self.wf(),
        ensures
            ({
                let want = merge::slots_in(
                    self.chain,
                    table@,
                    key_column_or_first(self.catalog@, table@) as int,
                ).rows;
                &&& slots@.len() == want.len()
                &&& forall|i: int|
                    0 <= i < slots@.len() ==> (#[trigger] slots@[i]).position == i
                        && merge::slot_shown(slots@[i].row) == want[i]
            }),
    {
        node_slots_oldest_first(&self.chain, table, self.key_column(table))
    }

    /// A node table's net updates and deletes.
    pub fn node_dml_effects(&self, table: &str) -> (result: DevonResult<NodeDmlEffects>)
        requires
            self.wf(),
        ensures
            match catalog::node_of(self.catalog@, table@) {
                None => result is Err && result->Err_0.kind_of() == ErrorKind::NotFound,
                Some(entry) => match node_table::key_column(entry.schema.columns, 0) {
                    None => result is Err && result->Err_0.kind_of() == ErrorKind::Corrupt,
                    Some(at) => {
                        let ops = merge::all_ops(
                            chain::deltas(chain::links(self.chain)),
                            table@,
                        );
                        match (result, merge::effects_after(ops, at as int, ops.len())) {
                            (Ok(effects), Some(after)) => effects.wf() && effects@ == after,
                            (Err(error), None) => error.kind_of() == ErrorKind::Corrupt,
                            _ => false,
                        }
                    },
                },
            },
    {
        match self.catalog.node_table(table) {
            None => Err(not_found(with_name("node table `", table, "`").as_str())),
            Some(schema) => match primary_key_column(&schema.columns) {
                None => Err(
                    corrupt(
                        with_name("node table `", table, "` has no primary-key column").as_str(),
                    ),
                ),
                Some(at) => node_dml_effects(&self.chain, table, at),
            },
        }
    }

    /// A relationship table's inserted edges, in order.
    pub fn rel_edges(&self, table: &str) -> (edges: Vec<&OverlayEdge>)
        requires
            self.wf(),
        ensures
            merge::edges_shown(edges@) == merge::all_edges(
                chain::deltas(chain::links(self.chain)),
                table@,
            ),
    {
        rel_edges_oldest_first(&self.chain, table)
    }

    /// A relationship table's gone endpoints.
    pub fn rel_tombstones(&self, table: &str) -> (gone: RelEndpointTombstones)
        requires
            self.wf(),
        ensures
            gone@ == merge::all_gone(chain::deltas(chain::links(self.chain)), table@),
    {
        rel_tombstones_oldest_first(&self.chain, table)
    }
}

} // verus!
