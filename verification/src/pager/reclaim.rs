//! Which pages come back into use: only those that no reader can still see.

use vstd::prelude::*;

use crate::bytes;
use crate::free_pages;
use crate::free_pages::LedgerEntry;
use crate::pager::ledger;
use crate::pager::ledger::{ChainView, GatherView, ScanView, SpaceView};
use crate::pager::reuse;
use crate::pager::reuse::ScannedReuseEntry;

verus! {

/// Whether entry `i` of a ledger page offers a page: it is not consumed yet, and was retired
/// below the pin horizon.
pub open spec fn offers(space: SpaceView, id: u64, ledger_page: u64, i: int) -> bool {
    let found = ledger::ledger_at(space.pages, ledger_page);
    &&& found is Some
    &&& ledger::effective(space.free.consumed, ledger_page, found->0) <= i
    &&& 0 <= i < found->0.entries.len()
    &&& found->0.entries[i].page_id == id
    &&& found->0.entries[i].retired_lsn < space.min_pin
}

/// Whether a page is free: deferred, or offered by the ledger.
pub open spec fn reclaimable(space: SpaceView, id: u64) -> bool {
    space.free.deferred.contains(id) || exists|ledger_page: u64, i: int|
        offers(space, id, ledger_page, i)
}

/// Whether an entry offered a page and is consumed afterwards.
pub open spec fn uses_up(
    space: SpaceView,
    after: SpaceView,
    id: u64,
    ledger_page: u64,
    i: int,
) -> bool {
    &&& offers(space, id, ledger_page, i)
    &&& after.free.consumed.dom().contains(ledger_page)
    &&& after.free.consumed[ledger_page] > i
}

/// Whether a page was free and has been taken: it is deferred no longer, or its entry is
/// consumed.
pub open spec fn taken(space: SpaceView, after: SpaceView, id: u64) -> bool {
    ||| space.free.deferred.contains(id) && !after.free.deferred.contains(id)
    ||| exists|ledger_page: u64, i: int| uses_up(space, after, id, ledger_page, i)
}

/// Whether entry `k` of a scan is one that offers its page.
spec fn offered_at(space: SpaceView, entries: Seq<ScannedReuseEntry>, k: int) -> bool {
    offers(
        space,
        entries[k].entry.page_id,
        entries[k].ledger_page,
        entries[k].consumed_after - 1,
    )
}

/// Whether every entry of a scan offers its page.
spec fn all_offered(space: SpaceView, entries: Seq<ScannedReuseEntry>) -> bool {
    forall|k: int| 0 <= k < entries.len() ==> #[trigger] offered_at(space, entries, k)
}

/// A ledger page counts its entries in four bytes.
proof fn lemma_entry_count(pages: Seq<Seq<u8>>, id: u64)
    requires
        ledger::ledger_at(pages, id) is Some,
    ensures
        ledger::ledger_at(pages, id)->0.entries.len() <= u32::MAX,
{
    bytes::lemma_radix_values();
    bytes::lemma_le_value_bound(pages[id as int].subrange(16, 20));
}

/// The entries that may be consumed are those of the page, from the index on, that were retired
/// below the pin horizon.
proof fn lemma_eligible(
    page: u64,
    entries: Seq<LedgerEntry>,
    from: int,
    min_pin: nat,
    room: nat,
    k: int,
)
    requires
        0 <= from,
        entries.len() <= u32::MAX,
        0 <= k < ledger::eligible(page, entries, from, min_pin, room).len(),
    ensures
        ({
            let scanned = ledger::eligible(page, entries, from, min_pin, room)[k];
            &&& from + k < entries.len()
            &&& scanned.ledger_page == page
            &&& scanned.consumed_after == from + k + 1
            &&& scanned.entry == entries[from + k]
            &&& scanned.entry.retired_lsn < min_pin
        }),
    decreases k,
{
    if k > 0 {
        lemma_eligible(page, entries, from + 1, min_pin, (room - 1) as nat, k - 1);
    }
}

/// What one ledger page adds to a scan offers its pages.
proof fn lemma_added(space: SpaceView, entries: Seq<ScannedReuseEntry>, cursor: u64, room: nat)
    requires
        all_offered(space, entries),
        ledger::ledger_at(space.pages, cursor) is Some,
    ensures
        ({
            let found = ledger::ledger_at(space.pages, cursor)->0;
            let from = ledger::effective(space.free.consumed, cursor, found) as int;
            all_offered(
                space,
                entries + ledger::eligible(cursor, found.entries, from, space.min_pin, room),
            )
        }),
{
    let found = ledger::ledger_at(space.pages, cursor)->0;
    let from = ledger::effective(space.free.consumed, cursor, found) as int;
    let more = ledger::eligible(cursor, found.entries, from, space.min_pin, room);
    let all = entries + more;
    lemma_entry_count(space.pages, cursor);
    assert forall|k: int| 0 <= k < all.len() implies #[trigger] offered_at(space, all, k) by {
        if k < entries.len() {
            assert(offered_at(space, entries, k));
        } else {
            lemma_eligible(
                cursor,
                found.entries,
                from,
                space.min_pin,
                room,
                k - entries.len(),
            );
        }
    }
}

/// The first entries of a scan offer their pages where all do.
proof fn lemma_part_offered(space: SpaceView, entries: Seq<ScannedReuseEntry>, count: int)
    requires
        all_offered(space, entries),
        0 <= count <= entries.len(),
    ensures
        all_offered(space, entries.subrange(0, count)),
{
    let part = entries.subrange(0, count);
    assert forall|k: int| 0 <= k < part.len() implies #[trigger] offered_at(space, part, k) by {
        assert(offered_at(space, entries, k));
    }
}

/// The walk of a run allocation finds entries that offer their pages, and a run among them.
proof fn lemma_scan_offers(
    space: SpaceView,
    tail: u64,
    count: nat,
    skip: nat,
    cursor: u64,
    visited: Seq<u64>,
    entries: Seq<ScannedReuseEntry>,
)
    requires
        count > 0,
        all_offered(space, entries),
    ensures
        ({
            let found = ledger::scan_from(
                space.pages,
                space.free.consumed,
                tail,
                space.min_pin,
                count,
                skip,
                cursor,
                visited,
                entries,
            );
            found is Some ==> all_offered(space, found->0.entries)
        }),
    decreases space.pages.len() - visited.len(),
{
    let found = ledger::ledger_at(space.pages, cursor);
    if !(visited.contains(cursor) || visited.len() + 1 > space.pages.len() || found is None) {
        let from = ledger::effective(space.free.consumed, cursor, found->0) as int;
        let limit = count + ledger::RUN_SCAN_SKIP_LIMIT as nat;
        let room = if entries.len() < limit {
            (limit - entries.len()) as nat
        } else {
            0
        };
        let more = ledger::eligible(cursor, found->0.entries, from, space.min_pin, room);
        let all = entries + more;
        lemma_added(space, entries, cursor, room);
        let run = if all.len() >= count {
            ledger::earliest(reuse::scanned_ids(all), count)
        } else {
            None
        };
        match run {
            Some((start, through)) => {
                ledger::lemma_earliest_exists(reuse::scanned_ids(all), count);
                let k = choose|k: int|
                    0 <= k < count && reuse::first_at(
                        reuse::scanned_ids(all),
                        #[trigger] reuse::page_at(start, k),
                        through,
                    );
                lemma_part_offered(space, all, through + 1);
            },
            None => {
                if more.len() < found->0.entries.len() - from || cursor == tail || found->0.next
                    == 0 {
                    if skip < all.len() {
                        lemma_part_offered(space, all, skip as int);
                    }
                } else {
                    lemma_scan_offers(
                        space,
                        tail,
                        count,
                        skip,
                        found->0.next,
                        visited.push(cursor),
                        all,
                    );
                }
            },
        }
    }
}

/// Consumed entries count as consumed.
proof fn lemma_consumed(
    consumed: Map<u64, u32>,
    entries: Seq<ScannedReuseEntry>,
    k: int,
)
    requires
        0 <= k < entries.len(),
    ensures
        ({
            let after = ledger::consumed_through(consumed, entries);
            &&& after.dom().contains(entries[k].ledger_page)
            &&& after[entries[k].ledger_page] >= entries[k].consumed_after
        }),
    decreases entries.len(),
{
    if k < entries.len() - 1 {
        lemma_consumed(consumed, entries.drop_last(), k);
        assert(entries.drop_last()[k] == entries[k]);
    }
}

/// Where there is a run, one of the runs is the lowest.
proof fn lemma_lowest_exists(set: Set<u64>, count: nat, start: u64)
    requires
        ledger::run_in(set, start, count),
    ensures
        exists|start: u64| ledger::is_lowest_run(set, count, start),
    decreases start,
{
    if !ledger::is_lowest_run(set, count, start) {
        let other = choose|other: u64| #[trigger]
            ledger::run_in(set, other, count) && other < start;
        lemma_lowest_exists(set, count, other);
    }
}

/// A page comes back into use only if no reader can still see it: every page of an allocated run
/// that the file had before was deferred, and is no longer, or was retired below the pin horizon,
/// and its ledger entry is consumed with the allocation.
pub proof fn law_reused_pages_were_free(space: SpaceView, count: nat)
    requires
        count > 0,
        ledger::allocate(space, count).0 is Some,
        space.pages.len() <= u64::MAX,
    ensures
        ({
            let (first, after) = ledger::allocate(space, count);
            forall|id: u64|
                first->0 <= id && id < first->0 + count && id < space.pages.len()
                    ==> #[trigger] taken(space, after, id)
        }),
{
    let (first, after) = ledger::allocate(space, count);
    let start = first->0;
    let (served, middle) = ledger::deferred_reuse(space, count);
    assert forall|id: u64|
        start <= id && id < start + count && id < space.pages.len() implies #[trigger] taken(
        space,
        after,
        id,
    ) by {
        if served is Some {
            let set = space.free.deferred;
            let some = choose|start: u64| ledger::run_in(set, start, count);
            lemma_lowest_exists(set, count, some);
            assert(reuse::page_at(start, id - start) == id);
        } else if ledger_serves(middle, count) {
            assert(middle == space);
            let scan = scan_of(space, count)->0;
            ledger::lemma_scan_run(
                space.pages,
                space.free.consumed,
                space.free.extension->0.retire_ledger_tail,
                space.min_pin,
                count,
                ledger::skip_capacity(space),
                space.free.extension->0.retire_ledger_head,
                Seq::empty(),
                Seq::empty(),
            );
            lemma_scan_offers(
                space,
                space.free.extension->0.retire_ledger_tail,
                count,
                ledger::skip_capacity(space),
                space.free.extension->0.retire_ledger_head,
                Seq::empty(),
                Seq::empty(),
            );
            let ids = reuse::scanned_ids(scan.entries);
            assert(reuse::page_at(start, id - start) == id);
            assert(ids.contains(id));
            let k = choose|k: int| 0 <= k < ids.len() && ids[k] == id;
            assert(offered_at(space, scan.entries, k));
            lemma_consumed(space.free.consumed, scan.entries, k);
            assert(uses_up(
                space,
                after,
                id,
                scan.entries[k].ledger_page,
                scan.entries[k].consumed_after - 1,
            ));
        }
    }
}

/// The walk of a run allocation along the ledger.
spec fn scan_of(space: SpaceView, count: nat) -> Option<ScanView> {
    ledger::scan_from(
        space.pages,
        space.free.consumed,
        space.free.extension->0.retire_ledger_tail,
        space.min_pin,
        count,
        ledger::skip_capacity(space),
        space.free.extension->0.retire_ledger_head,
        Seq::empty(),
        Seq::empty(),
    )
}

/// Whether the ledger serves a run.
spec fn ledger_serves(space: SpaceView, count: nat) -> bool {
    &&& ledger::ledger_open(space)
    &&& scan_of(space, count) is Some
    &&& !ledger::scan_untrusted(space.pages.len(), scan_of(space, count)->0)
    &&& scan_of(space, count)->0.run is Some
}

/// The walk of a compaction finds entries that offer their pages.
proof fn lemma_compaction_offers(
    space: SpaceView,
    tail: u64,
    cursor: u64,
    visited: Seq<u64>,
    entries: Seq<ScannedReuseEntry>,
)
    requires
        all_offered(space, entries),
    ensures
        ({
            let found = ledger::compaction_scan(
                space.pages,
                space.free.consumed,
                tail,
                space.min_pin,
                cursor,
                visited,
                entries,
            );
            found is Some ==> all_offered(space, found->0.entries)
        }),
    decreases space.pages.len() - visited.len(),
{
    let found = ledger::ledger_at(space.pages, cursor);
    if !(visited.contains(cursor) || visited.len() + 1 > space.pages.len() || found is None) {
        let room = if entries.len() < ledger::COMPACTION_ENTRY_LIMIT {
            (ledger::COMPACTION_ENTRY_LIMIT - entries.len()) as nat
        } else {
            0
        };
        lemma_added(space, entries, cursor, room);
        let from = ledger::effective(space.free.consumed, cursor, found->0) as int;
        let more = ledger::eligible(cursor, found->0.entries, from, space.min_pin, room);
        let seen = visited.push(cursor);
        if !(more.len() < found->0.entries.len() - from || cursor == tail || found->0.next == 0
            || seen.len() == ledger::COMPACTION_LEDGER_PAGE_LIMIT) {
            lemma_compaction_offers(space, tail, found->0.next, seen, entries + more);
        }
    }
}

/// A longer free end is looked for until there is none or the limit is reached.
proof fn lemma_tail_exists(candidates: Set<u64>, page_count: nat, count: nat)
    requires
        ledger::tail_of(candidates, page_count, count),
        count <= reuse::COMPACTION_TRUNCATE_PAGE_LIMIT,
        count <= page_count,
    ensures
        exists|count: nat| ledger::is_tail(candidates, page_count, count),
    decreases reuse::COMPACTION_TRUNCATE_PAGE_LIMIT - count,
{
    if count < reuse::COMPACTION_TRUNCATE_PAGE_LIMIT && ledger::tail_of(
        candidates,
        page_count,
        count + 1,
    ) {
        lemma_tail_exists(candidates, page_count, count + 1);
    } else {
        assert(ledger::is_tail(candidates, page_count, count));
    }
}

/// Compaction cuts free pages off the end of the file and no others: the superblock pages stay,
/// and every page that is gone was deferred or retired below the pin horizon.
pub proof fn law_compaction_cuts_free_pages(space: SpaceView)
    requires
        space.pages.len() >= reuse::SUPERBLOCK_SLOTS,
    ensures
        ({
            let after = ledger::compact(space);
            &&& reuse::SUPERBLOCK_SLOTS <= after.pages.len() <= space.pages.len()
            &&& forall|id: u64|
                after.pages.len() <= id && id < space.pages.len() ==> #[trigger] reclaimable(
                    space,
                    id,
                )
        }),
{
    let after = ledger::compact(space);
    if after.pages.len() != space.pages.len() {
        let extension = space.free.extension->0;
        let scan = ledger::compaction_scan(
            space.pages,
            space.free.consumed,
            extension.retire_ledger_tail,
            space.min_pin,
            extension.retire_ledger_head,
            Seq::empty(),
            Seq::empty(),
        )->0;
        lemma_compaction_offers(
            space,
            extension.retire_ledger_tail,
            extension.retire_ledger_head,
            Seq::empty(),
            Seq::empty(),
        );
        let candidates = ledger::compaction_candidates(space.free, scan);
        lemma_tail_exists(candidates, space.pages.len(), 0);
        let count = choose|count: nat| ledger::is_tail(candidates, space.pages.len(), count);
        assert(ledger::is_tail(candidates, space.pages.len(), count));
        assert(after.pages.len() == space.pages.len() - count);
        assert forall|id: u64|
            after.pages.len() <= id && id < space.pages.len() implies #[trigger] reclaimable(
            space,
            id,
        ) by {
            assert(candidates.contains(id));
            if !space.free.deferred.contains(id) {
                let ids = reuse::scanned_ids(scan.entries);
                assert(ids.contains(id));
                let k = choose|k: int| 0 <= k < ids.len() && ids[k] == id;
                assert(offered_at(space, scan.entries, k));
            }
        }
    }
}

/// The gathering of fresh ledger pages that a retirement begins with.
pub open spec fn gather_start(space: SpaceView, superseded: Set<u64>) -> GatherView {
    let (chain, start) = ledger::unlink(ledger::compact(space));
    GatherView {
        space: start,
        listing: ledger::retired_set(space, superseded),
        deferred: start.free.deferred,
        fresh: Seq::empty(),
    }
}

/// What a retirement gathers before it writes: the pages to list, and the fresh ledger pages
/// that list them.
pub open spec fn gathered(space: SpaceView, superseded: Set<u64>) -> GatherView {
    ledger::gather_all(
        gather_start(space, superseded),
        ledger::unlink(ledger::compact(space)).0,
        ledger::chunk_count(ledger::retired_set(space, superseded).len(), space.page_size),
    ).1
}

/// Whether no fresh ledger page is to be listed, and every page to list is in the file.
spec fn apart(gather: GatherView) -> bool {
    &&& forall|i: int|
        0 <= i < gather.fresh.len() ==> !gather.listing.contains(#[trigger] gather.fresh[i])
    &&& forall|id: u64| #[trigger] gather.listing.contains(id) ==> id < gather.space.pages.len()
}

/// Gathering keeps the fresh ledger pages apart from the pages to list.
proof fn lemma_gather_apart(gather: GatherView, chain: ChainView, steps: nat)
    requires
        apart(gather),
        gather.space.pages.len() <= u64::MAX,
    ensures
        apart(ledger::gather_all(gather, chain, steps).1),
    decreases steps,
{
    if !(gather.fresh.len() >= ledger::pages_for(
        gather.listing.len(),
        free_pages::capacity_of(gather.space.page_size),
    ) || steps == 0) {
        match ledger::gather_one(gather, chain) {
            Some(next) => {
                assert forall|i: int| 0 <= i < next.fresh.len() implies !next.listing.contains(
                    #[trigger] next.fresh[i],
                ) by {
                    if i < gather.fresh.len() {
                        assert(next.fresh[i] == gather.fresh[i]);
                    }
                }
                lemma_gather_apart(next, chain, (steps - 1) as nat);
            },
            None => {},
        }
    }
}

/// The ledger never lists one of its own pages as free: of the pages that a retirement takes for
/// the ledger, it lists none, as long as the pages that it retires are in the file.
pub proof fn law_ledger_pages_are_not_listed(space: SpaceView, superseded: Set<u64>, lsn: u64)
    requires
        reuse::SUPERBLOCK_SLOTS <= space.pages.len() <= u64::MAX,
        forall|id: u64| #[trigger]
            ledger::retired_set(space, superseded).contains(id) ==> id < gather_start(
                space,
                superseded,
            ).space.pages.len(),
    ensures
        ledger::retire(space, superseded, lsn).0 is None && !ledger::retired_set(
            space,
            superseded,
        ).is_empty() ==> ledger::retire(space, superseded, lsn) == ledger::published(
            gathered(space, superseded),
            ledger::unlink(ledger::compact(space)).0,
            lsn,
            ledger::list_of(gathered(space, superseded).listing),
        ),
        forall|i: int|
            0 <= i < gathered(space, superseded).fresh.len() ==> !gathered(
                space,
                superseded,
            ).listing.contains(#[trigger] gathered(space, superseded).fresh[i]),
{
    law_compaction_cuts_free_pages(space);
    lemma_gather_apart(
        gather_start(space, superseded),
        ledger::unlink(ledger::compact(space)).0,
        ledger::chunk_count(ledger::retired_set(space, superseded).len(), space.page_size),
    );
}

} // verus!
