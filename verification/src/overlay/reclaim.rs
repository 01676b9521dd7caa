//! Charging that gives up what is kept for speed alone before it refuses.

use vstd::prelude::*;

use crate::budget::MemoryBudget;
use crate::error::{DevonResult, ErrorKind};
use crate::groups::GroupStore;
use crate::overlay::chain;
use crate::overlay::fulltext;
use crate::overlay::fulltext::{
    build_fulltext_index, shed_fulltext_caches, ChargedFullTextIndex, EntryView, FullTextRegistry,
    TextIndexView, TextStateView,
};
use crate::overlay::pk_cache;
use crate::overlay::pk_cache::{shed_pk_caches, CacheSetView, PkRegistry, TableCacheView};
use crate::overlay::pk_index;
use crate::overlay::pk_index::{build_pk_index, Built, PkResolutionIndex};
use crate::pager;
use crate::pager::cache;
use crate::pager::Pager;
use crate::types::LogicalType;

verus! {

/// The bytes that all that is kept is charged.
pub open spec fn kept_bytes(
    pages: Pager,
    keys: Seq<CacheSetView>,
    texts: Seq<EntryView>,
) -> nat {
    pages.cache_charges() + pk_cache::sets_charge(keys) + fulltext::entries_charge(texts)
}

/// Whether the budget has charged all that is kept.
pub open spec fn all_charged(
    pages: Pager,
    keys: Seq<CacheSetView>,
    texts: Seq<EntryView>,
    budget: MemoryBudget,
) -> bool {
    kept_bytes(pages, keys, texts) <= budget.charged_of()
}

/// The bytes of a charge, where it is made.
pub open spec fn made_of(charged: bool, bytes: usize) -> nat {
    if charged {
        bytes as nat
    } else {
        0
    }
}

/// A lookup by key leaves all that is kept charged: the budget goes along with the cache of the
/// table that was asked for.
pub proof fn law_key_lookup_stays_charged(
    pages: Pager,
    keys: Seq<CacheSetView>,
    texts: Seq<EntryView>,
    before: MemoryBudget,
    after: MemoryBudget,
    publication: u64,
    name: Seq<char>,
    cache: TableCacheView,
)
    requires
        all_charged(pages, keys, texts, before),
        after.charged_of() == before.charged_of() + cache.charge() - pk_cache::cache_at(
            keys,
            publication,
            name,
        ).charge(),
    ensures
        all_charged(pages, pk_cache::with_cache(keys, publication, name, cache), texts, after),
{
    pk_cache::lemma_cache_charge(keys, publication, name, cache);
}

/// A lookup of a text index leaves all that is kept charged: the budget goes along with the state
/// of the column that was asked for.
pub proof fn law_text_lookup_stays_charged(
    pages: Pager,
    keys: Seq<CacheSetView>,
    texts: Seq<EntryView>,
    before: MemoryBudget,
    after: MemoryBudget,
    publication: u64,
    table: Seq<char>,
    column: Seq<char>,
    state: TextStateView,
)
    requires
        all_charged(pages, keys, texts, before),
        ({
            let (opened, at) = fulltext::with_entry(texts, publication, table, column);
            after.charged_of() == before.charged_of() + fulltext::text_charge(state)
                - fulltext::text_charge(opened[at].state)
        }),
    ensures
        ({
            let (opened, at) = fulltext::with_entry(texts, publication, table, column);
            all_charged(pages, keys, opened.update(at, (EntryView { state, ..opened[at] })), after)
        }),
{
    fulltext::lemma_lookup_charge(texts, publication, table, column, state);
}

/// Whether the last try at a charge is answered as it must be: beside `left` bytes it is made
/// where it fits.
pub open spec fn charged_at_last(
    left: nat,
    bytes: usize,
    charged: bool,
    budget: MemoryBudget,
) -> bool {
    &&& charged == (left + bytes <= budget.limit_of())
    &&& budget.charged_of() == left + made_of(charged, bytes)
}

/// Charges `bytes`. Where they do not fit, cached pages that nobody holds go first, as many as
/// give `bytes` back, and then the indexes that are kept; refused is only what does not fit even
/// so. Whether the bytes are charged.
pub fn charge_or_reclaim(
    bytes: usize,
    pages: &mut Pager,
    keys: &mut PkRegistry,
    texts: &mut FullTextRegistry,
    budget: &mut MemoryBudget,
) -> (charged: bool)
    requires
        old(pages).wf(),
        old(keys).wf(),
        old(pages).within(*old(budget)),
    ensures
        final(pages).wf(),
        final(keys).wf(),
        all_charged(*old(pages), old(keys)@, old(texts)@, *old(budget)) ==> kept_bytes(
            *final(pages),
            final(keys)@,
            final(texts)@,
        ) + made_of(charged, bytes) <= final(budget).charged_of(),
        final(budget).charged_of() <= old(budget).charged_of() + made_of(charged, bytes),
        pager::same_but_cache(*final(pages), *old(pages)),
        final(pages).reads() == old(pages).reads(),
        final(budget).limit_of() == old(budget).limit_of(),
        bytes <= old(budget).room() ==> {
            &&& charged
            &&& *final(pages) == *old(pages)
            &&& final(keys)@ == old(keys)@
            &&& final(texts)@ == old(texts)@
            &&& final(budget).charged_of() == old(budget).charged_of() + bytes
        },
        bytes > old(budget).room() ==> {
            let left = final(pages).cache_charges() + old(pages).other_charges(*old(budget));
            &&& exists|pinned: Seq<bool>|
                pinned.len() == old(pages).frames().len() && final(pages).clock()
                    == #[trigger] cache::shed_to(
                    old(pages).clock(),
                    pinned,
                    old(pages).frame_cost() as int,
                    bytes as int,
                )
            &&& cache::shed_bounds(
                old(pages).frames().len(),
                final(pages).frames(),
                old(pages).frame_cost() as int,
                bytes as int,
            )
            &&& if left + bytes <= old(budget).limit_of() {
                &&& charged
                &&& final(keys)@ == old(keys)@
                &&& final(texts)@ == old(texts)@
                &&& final(budget).charged_of() == left + bytes
            } else {
                &&& final(keys)@ == old(keys)@.map_values(
                    |set: CacheSetView| pk_cache::shed_set(set),
                )
                &&& final(texts)@ == old(texts)@.map_values(
                    |entry: EntryView| fulltext::shed_entry(entry),
                )
                &&& exists|freed: Seq<bool>|
                    freed.len() == old(texts)@.len() && charged_at_last(
                        chain::released(
                            chain::released(left as nat, pk_cache::sets_charge(old(keys)@)),
                            #[trigger] fulltext::freed_charge(old(texts)@, freed),
                        ),
                        bytes,
                        charged,
                        *final(budget),
                    )
            }
        },
{
    if budget.try_charge(bytes) {
        return true;
    }
    pages.shed_cache(bytes, budget);
    proof {
        let before = old(pages).frames().len() as int;
        let now = pages.frames().len() as int;
        let cost = pages.frame_cost() as int;
        assert(now * cost <= before * cost) by (nonlinear_arith)
            requires
                now <= before,
                cost >= 0,
        ;
    }
    if budget.try_charge(bytes) {
        return true;
    }
    shed_pk_caches(keys, budget);
    let ghost listed = texts@;
    shed_fulltext_caches(texts, budget);
    proof {
        assert forall|freed: Seq<bool>|
            freed.len() == listed.len() implies #[trigger] fulltext::freed_charge(listed, freed)
            <= fulltext::entries_charge(listed) by {
            fulltext::lemma_freed_bound(listed, freed);
        }
        pk_cache::lemma_shed_charges(old(keys)@);
        fulltext::lemma_shed_charges(listed);
    }
    budget.try_charge(bytes)
}

/// Gives up as much as charging `bytes` would, and charges nothing: an operation that asks for at
/// most `bytes` beyond what is charged then has room. Whether it has.
pub fn make_room(
    bytes: usize,
    pages: &mut Pager,
    keys: &mut PkRegistry,
    texts: &mut FullTextRegistry,
    budget: &mut MemoryBudget,
) -> (made: bool)
    requires
        old(pages).wf(),
        old(keys).wf(),
        old(pages).within(*old(budget)),
    ensures
        final(pages).wf(),
        final(keys).wf(),
        all_charged(*old(pages), old(keys)@, old(texts)@, *old(budget)) ==> all_charged(
            *final(pages),
            final(keys)@,
            final(texts)@,
            *final(budget),
        ),
        pager::same_but_cache(*final(pages), *old(pages)),
        final(pages).reads() == old(pages).reads(),
        final(budget).limit_of() == old(budget).limit_of(),
        final(budget).charged_of() <= old(budget).charged_of(),
        made == (bytes <= final(budget).room()),
        bytes <= old(budget).room() ==> {
            &&& *final(pages) == *old(pages)
            &&& final(keys)@ == old(keys)@
            &&& final(texts)@ == old(texts)@
            &&& final(budget).charged_of() == old(budget).charged_of()
        },
        bytes > old(budget).room() ==> cache::shed_bounds(
            old(pages).frames().len(),
            final(pages).frames(),
            old(pages).frame_cost() as int,
            bytes as int,
        ),
        !made ==> {
            &&& final(keys)@ == old(keys)@.map_values(
                |set: CacheSetView| pk_cache::shed_set(set),
            )
            &&& final(texts)@ == old(texts)@.map_values(
                |entry: EntryView| fulltext::shed_entry(entry),
            )
        },
{
    if charge_or_reclaim(bytes, pages, keys, texts, budget) {
        budget.release(bytes);
        true
    } else {
        false
    }
}

/// Whether a build of a key index is answered as it must be with so much room; `before` and `after`
/// are the budget round the build.
pub open spec fn key_build_holds(
    result: DevonResult<Option<PkResolutionIndex>>,
    build: Built,
    before: MemoryBudget,
    after: MemoryBudget,
) -> bool {
    match (result, build) {
        (Ok(Some(index)), Built::Going(built, _)) => index.wf() && index@ == built
            && after.charged_of() == before.charged_of() + built.charged,
        (Ok(None), Built::Refused) => after.charged_of() == before.charged_of(),
        (Err(error), Built::Failed(kind)) => error.kind_of() == kind && after.charged_of()
            == before.charged_of(),
        _ => false,
    }
}

/// Builds the index of a table's groups. Where there is no room for it, all that is kept for speed
/// alone is given up, and the build is tried once more.
pub fn build_pk_index_or_reclaim(
    store: &GroupStore,
    ids: &Vec<u64>,
    types: &Vec<LogicalType>,
    column: usize,
    pages: &mut Pager,
    keys: &mut PkRegistry,
    texts: &mut FullTextRegistry,
    budget: &mut MemoryBudget,
) -> (result: DevonResult<Option<PkResolutionIndex>>)
    requires
        store.wf(),
        column < types@.len(),
        old(pages).wf(),
        old(keys).wf(),
        old(pages).within(*old(budget)),
    ensures
        final(pages).wf(),
        final(keys).wf(),
        pager::same_but_cache(*final(pages), *old(pages)),
        final(budget).limit_of() == old(budget).limit_of(),
        ({
            let first = pk_index::built(
                store@,
                ids@,
                types@,
                column as int,
                old(budget).room(),
                ids@.len(),
            );
            if first is Refused {
                exists|between: MemoryBudget|
                    {
                        &&& between.limit_of() == old(budget).limit_of()
                        &&& between.charged_of() <= old(budget).charged_of()
                        &&& all_charged(*old(pages), old(keys)@, old(texts)@, *old(budget))
                            ==> all_charged(*final(pages), final(keys)@, final(texts)@, between)
                        &&& between.room() < usize::MAX ==> {
                            &&& final(keys)@ == old(keys)@.map_values(
                                |set: CacheSetView| pk_cache::shed_set(set),
                            )
                            &&& final(texts)@ == old(texts)@.map_values(
                                |entry: EntryView| fulltext::shed_entry(entry),
                            )
                        }
                        &&& #[trigger] key_build_holds(
                            result,
                            pk_index::built(
                                store@,
                                ids@,
                                types@,
                                column as int,
                                between.room(),
                                ids@.len(),
                            ),
                            between,
                            *final(budget),
                        )
                    }
            } else {
                &&& key_build_holds(result, first, *old(budget), *final(budget))
                &&& *final(pages) == *old(pages)
                &&& final(keys)@ == old(keys)@
                &&& final(texts)@ == old(texts)@
            }
        }),
{
    match build_pk_index(store, ids, types, column, budget) {
        Ok(None) => {},
        other => {
            return other;
        },
    }
    make_room(usize::MAX, pages, keys, texts, budget);
    let ghost between = *budget;
    let result: DevonResult<Option<PkResolutionIndex>> = build_pk_index(
        store,
        ids,
        types,
        column,
        budget,
    );
    assert(key_build_holds(
        result,
        pk_index::built(store@, ids@, types@, column as int, between.room(), ids@.len()),
        between,
        *budget,
    ));
    result
}

/// Whether a build of a text index is answered as it must be with so much room; `before` and
/// `after` are the budget round the build.
pub open spec fn text_build_holds(
    result: DevonResult<ChargedFullTextIndex>,
    build: Result<(TextIndexView, nat), ErrorKind>,
    before: MemoryBudget,
    after: MemoryBudget,
) -> bool {
    match (result, build) {
        (Ok(index), Ok((built, _))) => index@ == built && after.charged_of() == before.charged_of()
            + built.charged,
        (Err(error), Err(kind)) => error.kind_of() == kind && after.charged_of()
            == before.charged_of(),
        _ => false,
    }
}

/// Builds the index of a table's stored text column. Where there is no room for it, all that is
/// kept for speed alone is given up, and the build is tried once more.
pub fn build_fulltext_index_or_reclaim(
    store: &GroupStore,
    ids: &Vec<u64>,
    types: &Vec<LogicalType>,
    column: usize,
    pages: &mut Pager,
    keys: &mut PkRegistry,
    texts: &mut FullTextRegistry,
    budget: &mut MemoryBudget,
) -> (result: DevonResult<ChargedFullTextIndex>)
    requires
        store.wf(),
        column < types@.len(),
        old(pages).wf(),
        old(keys).wf(),
        old(pages).within(*old(budget)),
    ensures
        final(pages).wf(),
        final(keys).wf(),
        pager::same_but_cache(*final(pages), *old(pages)),
        final(budget).limit_of() == old(budget).limit_of(),
        ({
            let first = fulltext::text_built(
                store@,
                ids@,
                types@,
                column as int,
                old(budget).room(),
                ids@.len(),
            );
            if first is Err && first->Err_0 == ErrorKind::BudgetExceeded {
                exists|between: MemoryBudget|
                    {
                        &&& between.limit_of() == old(budget).limit_of()
                        &&& between.charged_of() <= old(budget).charged_of()
                        &&& all_charged(*old(pages), old(keys)@, old(texts)@, *old(budget))
                            ==> all_charged(*final(pages), final(keys)@, final(texts)@, between)
                        &&& between.room() < usize::MAX ==> {
                            &&& final(keys)@ == old(keys)@.map_values(
                                |set: CacheSetView| pk_cache::shed_set(set),
                            )
                            &&& final(texts)@ == old(texts)@.map_values(
                                |entry: EntryView| fulltext::shed_entry(entry),
                            )
                        }
                        &&& #[trigger] text_build_holds(
                            result,
                            fulltext::text_built(
                                store@,
                                ids@,
                                types@,
                                column as int,
                                between.room(),
                                ids@.len(),
                            ),
                            between,
                            *final(budget),
                        )
                    }
            } else {
                &&& text_build_holds(result, first, *old(budget), *final(budget))
                &&& *final(pages) == *old(pages)
                &&& final(keys)@ == old(keys)@
                &&& final(texts)@ == old(texts)@
            }
        }),
{
    match build_fulltext_index(store, ids, types, column, budget) {
        Ok(index) => {
            return Ok(index);
        },
        Err(error) => {
            if error.kind() != ErrorKind::BudgetExceeded {
                return Err(error);
            }
        },
    }
    make_room(usize::MAX, pages, keys, texts, budget);
    let ghost between = *budget;
    let result: DevonResult<ChargedFullTextIndex> = build_fulltext_index(
        store,
        ids,
        types,
        column,
        budget,
    );
    assert(text_build_holds(
        result,
        fulltext::text_built(store@, ids@, types@, column as int, between.room(), ids@.len()),
        between,
        *budget,
    ));
    result
}

} // verus!
