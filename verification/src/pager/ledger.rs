//! What the free-page ledger means: the state that allocation and
//! retirement move between.
//!
//! The ledger is a chain of pages, named by its head and its tail, that lists
//! retired pages in the order of their retirement. A prefix of each page's
//! entries has been consumed: those pages are in use again. An entry may be
//! consumed once no reader can still see its page, that is when it was
//! retired below the pin horizon.

use vstd::prelude::*;

use crate::error::ErrorKind;
use crate::free_pages;
use crate::free_pages::{LedgerEntry, LedgerView, SuperblockExtension};
use crate::pager::reuse;
use crate::pager::reuse::ScannedReuseEntry;
use crate::saturating;
use crate::sorted;

verus! {

/// Entries that a run allocation examines beyond the run itself.
pub const RUN_SCAN_SKIP_LIMIT: usize = 4096;

/// Ledger pages that one compaction examines at most.
pub const COMPACTION_LEDGER_PAGE_LIMIT: usize = 16;

/// Entries that one compaction examines at most.
pub const COMPACTION_ENTRY_LIMIT: usize = 4096;

/// The free-page state of a session.
#[verifier::ext_equal]
pub struct FreeView {
    /// The chain that the authoritative slot names.
    pub extension: Option<SuperblockExtension>,
    /// Whether the chain was abandoned.
    pub degraded: bool,
    /// The chain that the next superblock commit names.
    pub pending: Option<SuperblockExtension>,
    /// Consumed counts that ledger pages do not show yet.
    pub consumed: Map<u64, u32>,
    /// Pages handed out again.
    pub reused: nat,
    /// Pages cut off the file.
    pub truncated: nat,
    /// Consumed entries that are still free.
    pub deferred: Set<u64>,
    /// Those of them that the pending chain lists again.
    pub pending_deferred: Set<u64>,
    /// The count of retired pages of abandoned chains.
    pub floor: nat,
}

/// The pages and the free-page state.
#[verifier::ext_equal]
pub struct SpaceView {
    pub page_size: nat,
    pub pages: Seq<Seq<u8>>,
    pub free: FreeView,
    pub min_pin: nat,
    /// Whether the file can be cut off.
    pub truncates: bool,
}

/// A page of zeros.
pub open spec fn zero_page(page_size: nat) -> Seq<u8> {
    Seq::new(page_size, |i: int| 0u8)
}

/// The pages with one of them written, the file growing where it must.
pub open spec fn put_page(pages: Seq<Seq<u8>>, id: int, data: Seq<u8>, page_size: nat) -> Seq<
    Seq<u8>,
> {
    if id < pages.len() {
        pages.update(id, data)
    } else {
        (pages + Seq::new((id - pages.len()) as nat, |i: int| zero_page(page_size))).push(data)
    }
}

/// The pages with `count` pages of zeros behind them.
pub open spec fn grown(pages: Seq<Seq<u8>>, count: nat, page_size: nat) -> Seq<Seq<u8>> {
    pages + Seq::new(count, |i: int| zero_page(page_size))
}

/// The pages with a run of them zeroed.
pub open spec fn zeroed(pages: Seq<Seq<u8>>, start: int, count: nat, page_size: nat) -> Seq<
    Seq<u8>,
> {
    Seq::new(
        pages.len(),
        |i: int|
            if start <= i < start + count {
                zero_page(page_size)
            } else {
                pages[i]
            },
    )
}

/// What a page says as a ledger page; `None` where it is a superblock page,
/// lies beyond the file or is not lawful.
pub open spec fn ledger_at(pages: Seq<Seq<u8>>, id: u64) -> Option<LedgerView> {
    if reusable(pages.len(), id) {
        free_pages::ledger_of(pages[id as int])
    } else {
        None
    }
}

/// Whether a page may be handed out: no superblock page, and in the file.
pub open spec fn reusable(page_count: nat, id: u64) -> bool {
    reuse::SUPERBLOCK_SLOTS <= id && id < page_count
}

/// The read of a page: none where the page is a superblock page or lies beyond the file.
pub open spec fn read_of(pages: Seq<Seq<u8>>, id: u64) -> Seq<u64> {
    if reusable(pages.len(), id) {
        seq![id]
    } else {
        Seq::empty()
    }
}

/// A ledger page's consumed count as the session sees it.
pub open spec fn effective(consumed: Map<u64, u32>, id: u64, ledger: LedgerView) -> u32 {
    if consumed.dom().contains(id) && consumed[id] > ledger.consumed {
        consumed[id]
    } else {
        ledger.consumed
    }
}

/// The consumed counts with one of them raised.
pub open spec fn raised(consumed: Map<u64, u32>, id: u64, count: u32) -> Map<u64, u32> {
    if consumed.dom().contains(id) && consumed[id] > count {
        consumed
    } else {
        consumed.insert(id, count)
    }
}

/// The state after the chain has been abandoned.
pub open spec fn abandoned(free: FreeView) -> FreeView {
    FreeView {
        extension: None,
        degraded: true,
        consumed: Map::empty(),
        floor: match free.extension {
            Some(extension) => if extension.retired_total > free.floor {
                extension.retired_total as nat
            } else {
                free.floor
            },
            None => free.floor,
        },
        ..free
    }
}

/// Whether `start` is the lowest start of a run among the members of a set.
pub open spec fn is_lowest_run(set: Set<u64>, count: nat, start: u64) -> bool {
    &&& run_in(set, start, count)
    &&& forall|other: u64| #[trigger] run_in(set, other, count) ==> start <= other
}

/// Whether `count` pages from `start` on are all members.
pub open spec fn run_in(set: Set<u64>, start: u64, count: nat) -> bool {
    &&& start + count <= 0x1_0000_0000_0000_0000
    &&& forall|k: int| 0 <= k < count ==> set.contains(#[trigger] reuse::page_at(start, k))
}

/// The lowest run of `count` pages in a set.
pub open spec fn lowest_run(set: Set<u64>, count: nat) -> Option<u64> {
    if exists|start: u64| run_in(set, start, count) {
        Some(choose|start: u64| is_lowest_run(set, count, start))
    } else {
        None
    }
}

/// The pages of a run.
pub open spec fn run_set(start: u64, count: nat) -> Set<u64> {
    Set::new(|id: u64| start <= id && id < start + count)
}

/// Whether every page of a run may be handed out.
pub open spec fn run_reusable(page_count: nat, start: u64, count: nat) -> bool {
    reuse::SUPERBLOCK_SLOTS <= start && start + count <= page_count
}

/// Serving a run from the deferred pages: its first page, and the state.
pub open spec fn deferred_reuse(space: SpaceView, count: nat) -> (Option<u64>, SpaceView) {
    match lowest_run(space.free.deferred, count) {
        None => (None, space),
        Some(start) => if run_reusable(space.pages.len(), start, count) {
            (
                Some(start),
                SpaceView {
                    pages: zeroed(space.pages, start as int, count, space.page_size),
                    free: FreeView {
                        deferred: space.free.deferred.difference(run_set(start, count)),
                        reused: saturating::capped(space.free.reused + count),
                        ..space.free
                    },
                    ..space
                },
            )
        } else {
            (None, SpaceView { free: abandoned(space.free), ..space })
        },
    }
}

/// The entries of a ledger page, from an index on, that may be consumed: up
/// to the first that a reader may still see, and at most `room`.
pub open spec fn eligible(
    page: u64,
    entries: Seq<LedgerEntry>,
    from: int,
    min_pin: nat,
    room: nat,
) -> Seq<ScannedReuseEntry>
    decreases entries.len() - from,
{
    if 0 <= from < entries.len() && entries[from].retired_lsn < min_pin && room > 0 {
        seq![
            ScannedReuseEntry {
                ledger_page: page,
                consumed_after: (from + 1) as u32,
                entry: entries[from],
            },
        ] + eligible(page, entries, from + 1, min_pin, (room - 1) as nat)
    } else {
        Seq::empty()
    }
}

/// Entries are taken one after the other, each retired below the pin horizon, until there is no
/// room, no entry, or one that a reader may still see.
pub proof fn law_eligible_entries_are_a_prefix(
    page: u64,
    entries: Seq<LedgerEntry>,
    from: int,
    min_pin: nat,
    room: nat,
)
    requires
        0 <= from <= entries.len() <= u32::MAX,
    ensures
        ({
            let taken = eligible(page, entries, from, min_pin, room);
            &&& taken.len() <= room
            &&& from + taken.len() <= entries.len()
            &&& forall|i: int|
                0 <= i < taken.len() ==> {
                    &&& (#[trigger] taken[i]).ledger_page == page
                    &&& taken[i].consumed_after == from + i + 1
                    &&& taken[i].entry == entries[from + i]
                    &&& taken[i].entry.retired_lsn < min_pin
                }
            &&& taken.len() < room && from + taken.len() < entries.len() ==> entries[from
                + taken.len()].retired_lsn >= min_pin
        }),
    decreases entries.len() - from,
{
    if from < entries.len() && entries[from].retired_lsn < min_pin && room > 0 {
        let rest = eligible(page, entries, from + 1, min_pin, (room - 1) as nat);
        let taken = eligible(page, entries, from, min_pin, room);
        law_eligible_entries_are_a_prefix(page, entries, from + 1, min_pin, (room - 1) as nat);
        assert forall|i: int| 0 <= i < taken.len() implies {
            &&& (#[trigger] taken[i]).ledger_page == page
            &&& taken[i].consumed_after == from + i + 1
            &&& taken[i].entry == entries[from + i]
            &&& taken[i].entry.retired_lsn < min_pin
        } by {
            if i > 0 {
                assert(taken[i] == rest[i - 1]);
            }
        }
    }
}

/// What a walk along the ledger found: the entries that may be consumed, in
/// ledger order, the ledger pages it visited, and the run it settled on.
#[verifier::ext_equal]
pub struct ScanView {
    pub entries: Seq<ScannedReuseEntry>,
    pub visited: Seq<u64>,
    pub run: Option<u64>,
}

/// The run that ends earliest in the ledger, and where it ends.
pub open spec fn earliest(ids: Seq<u64>, count: nat) -> Option<(u64, int)> {
    if exists|start: u64| reuse::is_run(ids, start, count) {
        Some(
            choose|found: (u64, int)| #[trigger]
                reuse::is_earliest_run(ids, count, found.0, found.1),
        )
    } else {
        None
    }
}

/// The walk of a run allocation from ledger page `cursor` on; `None` where
/// the chain is broken.
pub open spec fn scan_from(
    pages: Seq<Seq<u8>>,
    consumed: Map<u64, u32>,
    tail: u64,
    min_pin: nat,
    count: nat,
    skip_capacity: nat,
    cursor: u64,
    visited: Seq<u64>,
    entries: Seq<ScannedReuseEntry>,
) -> Option<ScanView>
    decreases pages.len() - visited.len(),
{
    let ledger = ledger_at(pages, cursor);
    if visited.contains(cursor) || visited.len() + 1 > pages.len() || ledger is None {
        None
    } else {
        let from = effective(consumed, cursor, ledger->0) as int;
        let limit = count + RUN_SCAN_SKIP_LIMIT as nat;
        let room = if entries.len() < limit {
            (limit - entries.len()) as nat
        } else {
            0
        };
        let taken = eligible(cursor, ledger->0.entries, from, min_pin, room);
        let all = entries + taken;
        let seen = visited.push(cursor);
        let found = if all.len() >= count {
            earliest(reuse::scanned_ids(all), count)
        } else {
            None
        };
        match found {
            Some((start, through)) => Some(
                ScanView { entries: all.subrange(0, through + 1), visited: seen, run: Some(start) },
            ),
            None => if taken.len() < ledger->0.entries.len() - from || cursor == tail
                || ledger->0.next == 0 {
                Some(ScanView { entries: first(all, skip_capacity), visited: seen, run: None })
            } else {
                scan_from(
                    pages,
                    consumed,
                    tail,
                    min_pin,
                    count,
                    skip_capacity,
                    ledger->0.next,
                    seen,
                    all,
                )
            },
        }
    }
}

/// The pages that the walk of a run allocation reads, in order.
pub open spec fn scan_reads(
    pages: Seq<Seq<u8>>,
    consumed: Map<u64, u32>,
    tail: u64,
    min_pin: nat,
    count: nat,
    cursor: u64,
    visited: Seq<u64>,
    entries: Seq<ScannedReuseEntry>,
) -> Seq<u64>
    decreases pages.len() - visited.len(),
{
    let ledger = ledger_at(pages, cursor);
    if visited.contains(cursor) || visited.len() + 1 > pages.len() {
        Seq::empty()
    } else if ledger is None {
        read_of(pages, cursor)
    } else {
        let from = effective(consumed, cursor, ledger->0) as int;
        let limit = count + RUN_SCAN_SKIP_LIMIT as nat;
        let room = if entries.len() < limit {
            (limit - entries.len()) as nat
        } else {
            0
        };
        let taken = eligible(cursor, ledger->0.entries, from, min_pin, room);
        let all = entries + taken;
        let served = all.len() >= count && earliest(reuse::scanned_ids(all), count) is Some;
        if served || taken.len() < ledger->0.entries.len() - from || cursor == tail
            || ledger->0.next == 0 {
            seq![cursor]
        } else {
            seq![cursor] + scan_reads(
                pages,
                consumed,
                tail,
                min_pin,
                count,
                ledger->0.next,
                visited.push(cursor),
                all,
            )
        }
    }
}

/// The first `count` entries, or all where there are fewer.
pub open spec fn first(entries: Seq<ScannedReuseEntry>, count: nat) -> Seq<ScannedReuseEntry> {
    if count < entries.len() {
        entries.subrange(0, count as int)
    } else {
        entries
    }
}

/// Whether what was scanned cannot be trusted: it offers a ledger page, a
/// superblock page or a page beyond the file.
pub open spec fn scan_untrusted(page_count: nat, scan: ScanView) -> bool {
    exists|i: int| 0 <= i < scan.entries.len() && offers_wrong(page_count, scan, i)
}

/// Whether entry `i` of a scan cannot be trusted.
pub open spec fn offers_wrong(page_count: nat, scan: ScanView, i: int) -> bool {
    scan.visited.contains(scan.entries[i].entry.page_id) || !reusable(
        page_count,
        scan.entries[i].entry.page_id,
    )
}

/// The consumed counts once these entries are consumed.
pub open spec fn consumed_through(
    consumed: Map<u64, u32>,
    entries: Seq<ScannedReuseEntry>,
) -> Map<u64, u32>
    decreases entries.len(),
{
    if entries.len() == 0 {
        consumed
    } else {
        raised(
            consumed_through(consumed, entries.drop_last()),
            entries.last().ledger_page,
            entries.last().consumed_after,
        )
    }
}

/// The pages that entries list.
pub open spec fn listed(entries: Seq<ScannedReuseEntry>) -> Set<u64> {
    Set::new(|id: u64| reuse::scanned_ids(entries).contains(id))
}

/// Consuming what a scan found: the first page of the run, and the state.
pub open spec fn staged(space: SpaceView, scan: ScanView, count: nat) -> (Option<u64>, SpaceView) {
    if scan_untrusted(space.pages.len(), scan) {
        (None, SpaceView { free: abandoned(space.free), ..space })
    } else {
        let consumed = consumed_through(space.free.consumed, scan.entries);
        match scan.run {
            Some(start) => (
                Some(start),
                SpaceView {
                    pages: zeroed(space.pages, start as int, count, space.page_size),
                    free: FreeView {
                        consumed,
                        deferred: space.free.deferred.union(
                            listed(scan.entries).difference(run_set(start, count)),
                        ),
                        reused: saturating::capped(space.free.reused + count),
                        ..space.free
                    },
                    ..space
                },
            ),
            None => (
                None,
                SpaceView {
                    free: FreeView {
                        consumed,
                        deferred: space.free.deferred.union(listed(scan.entries)),
                        ..space.free
                    },
                    ..space
                },
            ),
        }
    }
}

/// How many more entries may be deferred before the next commit.
pub open spec fn skip_capacity(space: SpaceView) -> nat {
    let capacity = free_pages::capacity_of(space.page_size);
    if space.free.deferred.len() < capacity {
        (capacity - space.free.deferred.len()) as nat
    } else {
        0
    }
}

/// Whether the session has a ledger that it may consume.
pub open spec fn ledger_open(space: SpaceView) -> bool {
    &&& space.min_pin != 0
    &&& space.free.extension is Some
    &&& space.free.extension->0.names_ledger()
}

/// Serving a run from free pages: its first page, and the state.
pub open spec fn reuse_run(space: SpaceView, count: nat) -> (Option<u64>, SpaceView) {
    let (served, after) = deferred_reuse(space, count);
    if served is Some {
        (served, after)
    } else if !ledger_open(after) {
        (None, after)
    } else {
        let extension = after.free.extension->0;
        match scan_from(
            after.pages,
            after.free.consumed,
            extension.retire_ledger_tail,
            after.min_pin,
            count,
            skip_capacity(after),
            extension.retire_ledger_head,
            Seq::empty(),
            Seq::empty(),
        ) {
            None => (None, SpaceView { free: abandoned(after.free), ..after }),
            Some(scan) => staged(after, scan, count),
        }
    }
}

/// The ledger pages that serving a run from free pages reads, in order.
pub open spec fn reuse_reads(space: SpaceView, count: nat) -> Seq<u64> {
    let (served, after) = deferred_reuse(space, count);
    if served is Some || !ledger_open(after) {
        Seq::empty()
    } else {
        let extension = after.free.extension->0;
        scan_reads(
            after.pages,
            after.free.consumed,
            extension.retire_ledger_tail,
            after.min_pin,
            count,
            extension.retire_ledger_head,
            Seq::empty(),
            Seq::empty(),
        )
    }
}

/// The ledger pages that an allocation reads, in order.
pub open spec fn allocation_reads(space: SpaceView, count: nat) -> Seq<u64> {
    if count == 0 {
        Seq::empty()
    } else {
        reuse_reads(space, count)
    }
}

/// Whether `count` pages can be put behind the file.
pub open spec fn can_grow(space: SpaceView, count: nat) -> bool {
    &&& (space.pages.len() + count) * space.page_size <= u64::MAX
    &&& space.pages.len() + count <= usize::MAX
}

/// Allocating a run: the first page, and the state. Free pages first, else
/// the end of the file.
pub open spec fn allocate(space: SpaceView, count: nat) -> (Option<u64>, SpaceView) {
    let (served, after) = reuse_run(space, count);
    if served is Some {
        (served, after)
    } else if can_grow(after, count) {
        (
            Some(after.pages.len() as u64),
            SpaceView { pages: grown(after.pages, count, after.page_size), ..after },
        )
    } else {
        (None, after)
    }
}

/// A ledger page with its consumed count brought up to the session's.
pub open spec fn flushed_page(
    page: Seq<u8>,
    id: int,
    consumed: Map<u64, u32>,
    page_size: nat,
) -> Seq<u8> {
    let ledger = free_pages::ledger_of(page);
    if id >= reuse::SUPERBLOCK_SLOTS && id <= u64::MAX && consumed.dom().contains(id as u64)
        && ledger is Some && ledger->0.consumed < consumed[id as u64] && consumed[id as u64]
        <= ledger->0.entries.len() {
        free_pages::ledger_bytes(
            LedgerView { consumed: consumed[id as u64], ..ledger->0 },
            page_size,
        )
    } else {
        page
    }
}

/// The state once the ledger pages show every consumed count.
pub open spec fn flushed(space: SpaceView) -> SpaceView {
    SpaceView {
        pages: Seq::new(
            space.pages.len(),
            |i: int| flushed_page(space.pages[i], i, space.free.consumed, space.page_size),
        ),
        free: FreeView { consumed: Map::empty(), ..space.free },
        ..space
    }
}

/// The walk of a compaction from ledger page `cursor` on; `None` where the
/// chain is broken.
pub open spec fn compaction_scan(
    pages: Seq<Seq<u8>>,
    consumed: Map<u64, u32>,
    tail: u64,
    min_pin: nat,
    cursor: u64,
    visited: Seq<u64>,
    entries: Seq<ScannedReuseEntry>,
) -> Option<ScanView>
    decreases pages.len() - visited.len(),
{
    let ledger = ledger_at(pages, cursor);
    if visited.contains(cursor) || visited.len() + 1 > pages.len() || ledger is None {
        None
    } else {
        let from = effective(consumed, cursor, ledger->0) as int;
        let room = if entries.len() < COMPACTION_ENTRY_LIMIT {
            (COMPACTION_ENTRY_LIMIT - entries.len()) as nat
        } else {
            0
        };
        let taken = eligible(cursor, ledger->0.entries, from, min_pin, room);
        let all = entries + taken;
        let seen = visited.push(cursor);
        if taken.len() < ledger->0.entries.len() - from || cursor == tail || ledger->0.next == 0
            || seen.len() == COMPACTION_LEDGER_PAGE_LIMIT {
            Some(ScanView { entries: all, visited: seen, run: None })
        } else {
            compaction_scan(pages, consumed, tail, min_pin, ledger->0.next, seen, all)
        }
    }
}

/// The pages that the walk of a compaction reads, in order.
pub open spec fn compaction_reads(
    pages: Seq<Seq<u8>>,
    consumed: Map<u64, u32>,
    tail: u64,
    min_pin: nat,
    cursor: u64,
    visited: Seq<u64>,
    entries: Seq<ScannedReuseEntry>,
) -> Seq<u64>
    decreases pages.len() - visited.len(),
{
    let ledger = ledger_at(pages, cursor);
    if visited.contains(cursor) || visited.len() + 1 > pages.len() {
        Seq::empty()
    } else if ledger is None {
        read_of(pages, cursor)
    } else {
        let from = effective(consumed, cursor, ledger->0) as int;
        let room = if entries.len() < COMPACTION_ENTRY_LIMIT {
            (COMPACTION_ENTRY_LIMIT - entries.len()) as nat
        } else {
            0
        };
        let taken = eligible(cursor, ledger->0.entries, from, min_pin, room);
        let seen = visited.push(cursor);
        if taken.len() < ledger->0.entries.len() - from || cursor == tail || ledger->0.next == 0
            || seen.len() == COMPACTION_LEDGER_PAGE_LIMIT {
            seq![cursor]
        } else {
            seq![cursor] + compaction_reads(
                pages,
                consumed,
                tail,
                min_pin,
                ledger->0.next,
                seen,
                entries + taken,
            )
        }
    }
}

/// The ledger pages of a list that are there to be read.
pub open spec fn readable(pages: Seq<Seq<u8>>, list: Seq<u64>) -> Seq<u64>
    decreases list.len(),
{
    if list.len() == 0 {
        Seq::empty()
    } else {
        readable(pages, list.drop_last()) + read_of(pages, list.last())
    }
}

/// The ledger pages that making consumed counts durable reads: those with a count, ascending.
pub open spec fn flush_reads(space: SpaceView) -> Seq<u64> {
    readable(space.pages, list_of(space.free.consumed.dom()))
}

/// The free pages that a compaction knows.
pub open spec fn compaction_candidates(free: FreeView, scan: ScanView) -> Set<u64> {
    free.deferred.union(listed(scan.entries))
}

/// Whether a compaction's candidates cannot be trusted.
pub open spec fn candidates_untrusted(page_count: nat, free: FreeView, scan: ScanView) -> bool {
    exists|id: u64| #[trigger]
        compaction_candidates(free, scan).contains(id) && (scan.visited.contains(id) || !reusable(
            page_count,
            id,
        ))
}

/// Whether the last `count` pages of the file are candidates.
pub open spec fn tail_of(candidates: Set<u64>, page_count: nat, count: nat) -> bool {
    &&& count == 0 || page_count - count >= reuse::SUPERBLOCK_SLOTS
    &&& forall|id: u64|
        page_count - count <= id && id < page_count ==> #[trigger] candidates.contains(id)
}

/// How many pages a compaction cuts off: the longest free end of the file,
/// up to its limit.
pub open spec fn is_tail(candidates: Set<u64>, page_count: nat, count: nat) -> bool {
    &&& count <= reuse::COMPACTION_TRUNCATE_PAGE_LIMIT
    &&& count <= page_count
    &&& tail_of(candidates, page_count, count)
    &&& count < reuse::COMPACTION_TRUNCATE_PAGE_LIMIT ==> !tail_of(
        candidates,
        page_count,
        count + 1,
    )
}

/// The entries up to the last one that lists a page from `from` on.
pub open spec fn prefix_through(entries: Seq<ScannedReuseEntry>, from: int) -> Seq<
    ScannedReuseEntry,
>
    decreases entries.len(),
{
    if entries.len() == 0 || entries.last().entry.page_id >= from {
        entries
    } else {
        prefix_through(entries.drop_last(), from)
    }
}

/// The state once a compaction has consumed the entries of the pages that it cuts off.
pub open spec fn drained(space: SpaceView, scan: ScanView, count: nat) -> SpaceView {
    let kept = (space.pages.len() - count) as nat;
    let prefix = prefix_through(scan.entries, kept as int);
    let cut = Set::new(|id: u64| kept <= id && id < space.pages.len());
    SpaceView {
        free: FreeView {
            consumed: consumed_through(space.free.consumed, prefix),
            deferred: space.free.deferred.union(listed(prefix)).difference(cut),
            ..space.free
        },
        ..space
    }
}

/// The state once a compaction has cut `count` pages off.
pub open spec fn compacted(space: SpaceView, scan: ScanView, count: nat) -> SpaceView {
    let kept = (space.pages.len() - count) as nat;
    let after = flushed(drained(space, scan, count));
    SpaceView {
        pages: after.pages.subrange(0, kept as int),
        free: FreeView {
            truncated: saturating::capped(after.free.truncated + count),
            ..after.free
        },
        ..after
    }
}

/// What a compaction goes by, where it cuts pages off: its walk, and how many pages.
pub open spec fn compaction_cut(space: SpaceView) -> Option<(ScanView, nat)> {
    let extension = space.free.extension->0;
    let walk = compaction_scan(
        space.pages,
        space.free.consumed,
        extension.retire_ledger_tail,
        space.min_pin,
        extension.retire_ledger_head,
        Seq::empty(),
        Seq::empty(),
    );
    if !space.truncates || !ledger_open(space) || walk is None || candidates_untrusted(
        space.pages.len(),
        space.free,
        walk->0,
    ) {
        None
    } else {
        let candidates = compaction_candidates(space.free, walk->0);
        let count = choose|count: nat| is_tail(candidates, space.pages.len(), count);
        if reuse::compaction_due(candidates.len(), space.pages.len()) && count != 0 {
            Some((walk->0, count))
        } else {
            None
        }
    }
}

/// Compaction before a retirement.
pub open spec fn compact(space: SpaceView) -> SpaceView {
    if !space.truncates || !ledger_open(space) {
        space
    } else {
        let extension = space.free.extension->0;
        match compaction_scan(
            space.pages,
            space.free.consumed,
            extension.retire_ledger_tail,
            space.min_pin,
            extension.retire_ledger_head,
            Seq::empty(),
            Seq::empty(),
        ) {
            None => SpaceView { free: abandoned(space.free), ..space },
            Some(scan) => if candidates_untrusted(space.pages.len(), space.free, scan) {
                SpaceView { free: abandoned(space.free), ..space }
            } else {
                match compaction_cut(space) {
                    Some((scan, count)) => compacted(space, scan, count),
                    None => space,
                }
            },
        }
    }
}

/// The ledger pages that compaction reads, in order.
pub open spec fn compact_reads(space: SpaceView) -> Seq<u64> {
    if !space.truncates || !ledger_open(space) {
        Seq::empty()
    } else {
        let extension = space.free.extension->0;
        compaction_reads(
            space.pages,
            space.free.consumed,
            extension.retire_ledger_tail,
            space.min_pin,
            extension.retire_ledger_head,
            Seq::empty(),
            Seq::empty(),
        ) + match compaction_cut(space) {
            Some((scan, count)) => flush_reads(drained(space, scan, count)),
            None => Seq::empty(),
        }
    }
}

/// What is left of the chain once its fully consumed pages are unlinked.
#[verifier::ext_equal]
pub struct ChainView {
    pub unlinked: Seq<u64>,
    pub head: u64,
    pub tail: u64,
}

/// Unlinks fully consumed pages from `cursor` on; `None` where the chain is
/// broken.
pub open spec fn unlink_from(
    pages: Seq<Seq<u8>>,
    consumed: Map<u64, u32>,
    tail: u64,
    cursor: u64,
    unlinked: Seq<u64>,
) -> Option<ChainView>
    decreases pages.len() - unlinked.len(),
{
    let ledger = ledger_at(pages, cursor);
    if unlinked.contains(cursor) || unlinked.len() + 1 > pages.len() || ledger is None {
        None
    } else if effective(consumed, cursor, ledger->0) < ledger->0.entries.len() {
        Some(ChainView { unlinked, head: cursor, tail })
    } else {
        let seen = unlinked.push(cursor);
        if ledger->0.next != 0 && seen.contains(ledger->0.next) {
            None
        } else if cursor == tail || ledger->0.next == 0 {
            Some(ChainView { unlinked: seen, head: 0, tail: 0 })
        } else {
            unlink_from(pages, consumed, tail, ledger->0.next, seen)
        }
    }
}

/// The pages that unlinking from `cursor` on reads, in order.
pub open spec fn unlink_walk(
    pages: Seq<Seq<u8>>,
    consumed: Map<u64, u32>,
    tail: u64,
    cursor: u64,
    unlinked: Seq<u64>,
) -> Seq<u64>
    decreases pages.len() - unlinked.len(),
{
    let ledger = ledger_at(pages, cursor);
    if unlinked.contains(cursor) || unlinked.len() + 1 > pages.len() {
        Seq::empty()
    } else if ledger is None {
        read_of(pages, cursor)
    } else {
        let seen = unlinked.push(cursor);
        if effective(consumed, cursor, ledger->0) < ledger->0.entries.len() || ledger->0.next == 0
            || seen.contains(ledger->0.next) || cursor == tail {
            seq![cursor]
        } else {
            seq![cursor] + unlink_walk(pages, consumed, tail, ledger->0.next, seen)
        }
    }
}

/// The ledger pages that unlinking reads, in order.
pub open spec fn unlink_reads(space: SpaceView) -> Seq<u64> {
    match space.free.extension {
        Some(extension) => if extension.names_ledger() {
            unlink_walk(
                space.pages,
                space.free.consumed,
                extension.retire_ledger_tail,
                extension.retire_ledger_head,
                Seq::empty(),
            )
        } else {
            Seq::empty()
        },
        None => Seq::empty(),
    }
}

/// Unlinking the fully consumed front of the chain; the state is abandoned
/// where the chain is broken.
pub open spec fn unlink(space: SpaceView) -> (ChainView, SpaceView) {
    let none = ChainView { unlinked: Seq::empty(), head: 0, tail: 0 };
    match space.free.extension {
        Some(extension) => if extension.names_ledger() {
            match unlink_from(
                space.pages,
                space.free.consumed,
                extension.retire_ledger_tail,
                extension.retire_ledger_head,
                Seq::empty(),
            ) {
                Some(chain) => (chain, space),
                None => (none, SpaceView { free: abandoned(space.free), ..space }),
            }
        } else {
            (none, space)
        },
        None => (none, space),
    }
}

/// The state while fresh ledger pages are gathered: the entries to list, the
/// deferred ones among them, and the fresh pages.
#[verifier::ext_equal]
pub struct GatherView {
    pub space: SpaceView,
    pub listing: Set<u64>,
    pub deferred: Set<u64>,
    pub fresh: Seq<u64>,
}

/// The entry of the surviving chain that may become a ledger page.
pub open spec fn next_entry(gather: GatherView, chain: ChainView) -> Option<LedgerEntry> {
    let space = gather.space;
    let ledger = ledger_at(space.pages, chain.head);
    if chain.head == 0 || space.min_pin == 0 || ledger is None {
        None
    } else {
        let at = effective(space.free.consumed, chain.head, ledger->0) as int;
        if at < ledger->0.entries.len() && ledger->0.entries[at].retired_lsn < space.min_pin
            && !gather.listing.contains(ledger->0.entries[at].page_id) && chain.tail != 0
            && reusable(space.pages.len(), ledger->0.entries[at].page_id) {
            Some(ledger->0.entries[at])
        } else {
            None
        }
    }
}

/// Whether `id` is the lowest deferred page that may become a ledger page.
pub open spec fn is_next_deferred(gather: GatherView, id: u64) -> bool {
    &&& gather.deferred.contains(id)
    &&& reusable(gather.space.pages.len(), id)
    &&& forall|other: u64| #[trigger]
        gather.deferred.contains(other) && reusable(gather.space.pages.len(), other) ==> id
            <= other
}

/// How many pages hold `entries` entries.
pub open spec fn pages_for(entries: nat, capacity: nat) -> nat {
    if capacity == 0 {
        0
    } else {
        ((entries + capacity - 1) / capacity as int) as nat
    }
}

/// Whether a deferred page may become a ledger page: without it the entries
/// still need more pages than are gathered, so that every fresh page has
/// entries to hold.
pub open spec fn still_short(gather: GatherView) -> bool {
    gather.listing.len() > 0 && gather.fresh.len() < pages_for(
        (gather.listing.len() - 1) as nat,
        free_pages::capacity_of(gather.space.page_size),
    )
}

/// Gathers one fresh ledger page: the next entry of the surviving chain, or
/// the lowest deferred page while entries remain for it to hold, or a page
/// behind the file.
pub open spec fn gather_one(gather: GatherView, chain: ChainView) -> Option<GatherView> {
    let space = gather.space;
    match next_entry(gather, chain) {
        Some(entry) => {
            let at = effective(
                space.free.consumed,
                chain.head,
                ledger_at(space.pages, chain.head)->0,
            );
            Some(
                GatherView {
                    space: SpaceView {
                        free: FreeView {
                            consumed: space.free.consumed.insert(chain.head, (at + 1) as u32),
                            reused: saturating::capped(space.free.reused + 1),
                            ..space.free
                        },
                        ..space
                    },
                    fresh: gather.fresh.push(entry.page_id),
                    ..gather
                },
            )
        },
        None => if still_short(gather) && exists|id: u64| is_next_deferred(gather, id) {
            let id = choose|id: u64| is_next_deferred(gather, id);
            Some(
                GatherView {
                    space: SpaceView {
                        free: FreeView {
                            deferred: space.free.deferred.remove(id),
                            reused: saturating::capped(space.free.reused + 1),
                            ..space.free
                        },
                        ..space
                    },
                    listing: gather.listing.remove(id),
                    deferred: gather.deferred.remove(id),
                    fresh: gather.fresh.push(id),
                },
            )
        } else if can_grow(space, 1) {
            Some(
                GatherView {
                    space: SpaceView { pages: grown(space.pages, 1, space.page_size), ..space },
                    fresh: gather.fresh.push(space.pages.len() as u64),
                    ..gather
                },
            )
        } else {
            None
        },
    }
}

/// Gathers fresh ledger pages until they hold every entry to list; `None`
/// where the file cannot grow.
pub open spec fn gather_all(gather: GatherView, chain: ChainView, steps: nat) -> (bool, GatherView)
    decreases steps,
{
    if gather.fresh.len() >= pages_for(
        gather.listing.len(),
        free_pages::capacity_of(gather.space.page_size),
    ) || steps == 0 {
        (true, gather)
    } else {
        match gather_one(gather, chain) {
            Some(next) => gather_all(next, chain, (steps - 1) as nat),
            None => (false, gather),
        }
    }
}

/// The pages that gathering reads: the head of the surviving chain, once for every page gathered
/// while readers have moved on.
pub open spec fn gather_reads(gather: GatherView, chain: ChainView, steps: nat) -> Seq<u64>
    decreases steps,
{
    if gather.fresh.len() >= pages_for(
        gather.listing.len(),
        free_pages::capacity_of(gather.space.page_size),
    ) || steps == 0 {
        Seq::empty()
    } else {
        let read = if chain.head == 0 || gather.space.min_pin == 0 {
            Seq::empty()
        } else {
            read_of(gather.space.pages, chain.head)
        };
        match gather_one(gather, chain) {
            Some(next) => read + gather_reads(next, chain, (steps - 1) as nat),
            None => read,
        }
    }
}

/// The ledger page that lists the entries from `index * capacity` on.
pub open spec fn fresh_ledger(
    listing: Seq<u64>,
    fresh: Seq<u64>,
    capacity: nat,
    lsn: u64,
    index: int,
) -> LedgerView {
    let from = index * capacity;
    let to = if from + capacity < listing.len() {
        from + capacity
    } else {
        listing.len() as int
    };
    LedgerView {
        next: if index + 1 < fresh.len() {
            fresh[index + 1]
        } else {
            0
        },
        consumed: 0,
        entries: Seq::new(
            (to - from) as nat,
            |i: int| LedgerEntry { page_id: listing[from + i], retired_lsn: lsn },
        ),
    }
}

/// The pages once the first `count` fresh ledger pages are written.
pub open spec fn fresh_written(
    pages: Seq<Seq<u8>>,
    listing: Seq<u64>,
    fresh: Seq<u64>,
    lsn: u64,
    page_size: nat,
    count: nat,
) -> Seq<Seq<u8>>
    decreases count,
{
    if count == 0 {
        pages
    } else {
        let index = count - 1;
        put_page(
            fresh_written(pages, listing, fresh, lsn, page_size, index as nat),
            fresh[index] as int,
            free_pages::ledger_bytes(
                fresh_ledger(listing, fresh, free_pages::capacity_of(page_size), lsn, index),
                page_size,
            ),
            page_size,
        )
    }
}

/// Whether a list is the ascending list of a set.
pub open spec fn lists(list: Seq<u64>, set: Set<u64>) -> bool {
    sorted::ascending(list) && forall|id: u64| #[trigger] list.contains(id) <==> set.contains(id)
}

/// The ascending list of a set.
pub open spec fn list_of(set: Set<u64>) -> Seq<u64> {
    choose|list: Seq<u64>| lists(list, set)
}

/// A set has one ascending list.
pub proof fn lemma_list_of(list: Seq<u64>, set: Set<u64>)
    requires
        lists(list, set),
    ensures
        list_of(set) == list,
        set.finite(),
        set.len() == list.len(),
{
    let other = list_of(set);
    assert(lists(other, set));
    assert forall|x: u64| #[trigger] list.contains(x) <==> #[trigger] other.contains(x) by {
        assert(list.contains(x) <==> set.contains(x));
        assert(other.contains(x) <==> set.contains(x));
    }
    sorted::lemma_ascending_unique(list, other);
    assert(list.no_duplicates());
    list.unique_seq_to_set();
    assert(list.to_set() =~= set);
}

/// How many fresh pages are written: as many as the entries fill.
pub open spec fn chunk_count(listing: nat, page_size: nat) -> nat {
    pages_for(listing, free_pages::capacity_of(page_size))
}

/// The outcome of a retirement: the error it answers, if any, and the state.
pub open spec fn retire(space: SpaceView, superseded: Set<u64>, lsn: u64) -> (
    Option<ErrorKind>,
    SpaceView,
) {
    let (chain, start) = unlink(compact(space));
    let listing = retired_set(space, superseded);
    if exists|id: u64| #[trigger] listing.contains(id) && id < reuse::SUPERBLOCK_SLOTS {
        (Some(ErrorKind::InvalidArgument), start)
    } else if listing.is_empty() {
        let after = flushed(start);
        (
            None,
            SpaceView {
                free: FreeView {
                    pending: after.free.extension,
                    pending_deferred: Set::empty(),
                    ..after.free
                },
                ..after
            },
        )
    } else {
        let begin = GatherView {
            space: start,
            listing,
            deferred: start.free.deferred,
            fresh: Seq::empty(),
        };
        let (complete, gather) = gather_all(
            begin,
            chain,
            chunk_count(listing.len(), space.page_size),
        );
        if !complete {
            (Some(ErrorKind::InvalidArgument), gather.space)
        } else {
            published(gather, chain, lsn, list_of(gather.listing))
        }
    }
}

/// The pages that a retirement lists: the superseded, the unlinked ledger
/// pages and the deferred.
pub open spec fn retired_set(space: SpaceView, superseded: Set<u64>) -> Set<u64> {
    let (chain, start) = unlink(compact(space));
    superseded.union(Set::new(|id: u64| chain.unlinked.contains(id))).union(start.free.deferred)
}

/// The ledger pages that a retirement reads, in order: those of the compaction, of unlinking, of
/// gathering and of the counts made durable, and the tail that the fresh chain is linked to.
pub open spec fn retire_reads(space: SpaceView, superseded: Set<u64>) -> Seq<u64> {
    let (chain, start) = unlink(compact(space));
    let listing = retired_set(space, superseded);
    let walked = compact_reads(space) + unlink_reads(compact(space));
    if exists|id: u64| #[trigger] listing.contains(id) && id < reuse::SUPERBLOCK_SLOTS {
        walked
    } else if listing.is_empty() {
        walked + flush_reads(start)
    } else {
        let begin = GatherView {
            space: start,
            listing,
            deferred: start.free.deferred,
            fresh: Seq::empty(),
        };
        let steps = chunk_count(listing.len(), space.page_size);
        let (complete, gather) = gather_all(begin, chain, steps);
        let gathered = walked + gather_reads(begin, chain, steps);
        if !complete {
            gathered
        } else {
            gathered + publish_reads(gather.space, chain)
        }
    }
}

/// The ledger pages that writing gathered pages reads.
pub open spec fn publish_reads(space: SpaceView, chain: ChainView) -> Seq<u64> {
    flush_reads(space) + if chain.tail != 0 {
        read_of(space.pages, chain.tail)
    } else {
        Seq::empty()
    }
}

/// Writing the gathered ledger pages: the error, if any, and the state.
pub open spec fn published(gather: GatherView, chain: ChainView, lsn: u64, list: Seq<u64>) -> (
    Option<ErrorKind>,
    SpaceView,
) {
    let ready = flushed(gather.space);
    let written = SpaceView {
        pages: fresh_written(
            ready.pages,
            list,
            gather.fresh,
            lsn,
            ready.page_size,
            chunk_count(list.len(), ready.page_size),
        ),
        ..ready
    };
    let last = ledger_at(written.pages, chain.tail);
    if chain.tail != 0 && last is None {
        (
            Some(
                if reusable(written.pages.len(), chain.tail) {
                    ErrorKind::Corrupt
                } else {
                    ErrorKind::InvalidArgument
                },
            ),
            written,
        )
    } else {
        let linked = if chain.tail != 0 {
            put_page(
                written.pages,
                chain.tail as int,
                free_pages::ledger_bytes(
                    LedgerView { next: gather.fresh[0], ..last->0 },
                    written.page_size,
                ),
                written.page_size,
            )
        } else {
            written.pages
        };
        let total = match written.free.extension {
            Some(extension) => extension.retired_total as nat,
            None => written.free.floor,
        };
        (
            None,
            SpaceView {
                pages: linked,
                free: FreeView {
                    pending: Some(
                        SuperblockExtension {
                            retire_ledger_head: if chain.head != 0 {
                                chain.head
                            } else {
                                gather.fresh[0]
                            },
                            retire_ledger_tail: gather.fresh.last(),
                            retired_total: saturating::capped(total + list.len()) as u64,
                        },
                    ),
                    pending_deferred: gather.deferred,
                    ..written.free
                },
                ..written
            },
        )
    }
}

/// A walk settles on a run of the entries that it found.
pub proof fn lemma_scan_run(
    pages: Seq<Seq<u8>>,
    consumed: Map<u64, u32>,
    tail: u64,
    min_pin: nat,
    count: nat,
    skip: nat,
    cursor: u64,
    visited: Seq<u64>,
    entries: Seq<ScannedReuseEntry>,
)
    requires
        count > 0,
    ensures
        ({
            let found = scan_from(
                pages,
                consumed,
                tail,
                min_pin,
                count,
                skip,
                cursor,
                visited,
                entries,
            );
            found is Some && found->0.run is Some ==> reuse::is_run(
                reuse::scanned_ids(found->0.entries),
                found->0.run->0,
                count,
            )
        }),
    decreases pages.len() - visited.len(),
{
    let ledger = ledger_at(pages, cursor);
    if !(visited.contains(cursor) || visited.len() + 1 > pages.len() || ledger is None) {
        let from = effective(consumed, cursor, ledger->0) as int;
        let limit = count + RUN_SCAN_SKIP_LIMIT as nat;
        let room = if entries.len() < limit {
            (limit - entries.len()) as nat
        } else {
            0
        };
        let taken = eligible(cursor, ledger->0.entries, from, min_pin, room);
        let all = entries + taken;
        let seen = visited.push(cursor);
        let ids = reuse::scanned_ids(all);
        let found = if all.len() >= count {
            earliest(ids, count)
        } else {
            None
        };
        match found {
            Some((start, through)) => {
                lemma_earliest_exists(ids, count);
                assert(reuse::is_earliest_run(ids, count, start, through));
                let kept = all.subrange(0, through + 1);
                let part = reuse::scanned_ids(kept);
                let k = choose|k: int|
                    0 <= k < count && reuse::first_at(
                        ids,
                        #[trigger] reuse::page_at(start, k),
                        through,
                    );
                assert(part =~= ids.subrange(0, through + 1));
                assert forall|k: int| 0 <= k < count implies part.contains(
                    #[trigger] reuse::page_at(start, k),
                ) by {
                    assert(ids.contains(reuse::page_at(start, k)));
                    let at = reuse::lemma_first_exists(ids, reuse::page_at(start, k));
                    assert(reuse::first_at(ids, reuse::page_at(start, k), at));
                    assert(part[at] == reuse::page_at(start, k));
                }
            },
            None => {
                if !(taken.len() < ledger->0.entries.len() - from || cursor == tail
                    || ledger->0.next == 0) {
                    lemma_scan_run(
                        pages,
                        consumed,
                        tail,
                        min_pin,
                        count,
                        skip,
                        ledger->0.next,
                        seen,
                        all,
                    );
                }
            },
        }
    }
}

/// Where there is a run, one of the runs is the earliest.
pub proof fn lemma_earliest_exists(ids: Seq<u64>, count: nat)
    requires
        count > 0,
        exists|start: u64| reuse::is_run(ids, start, count),
    ensures
        earliest(ids, count) is Some,
        reuse::is_earliest_run(
            ids,
            count,
            (earliest(ids, count)->0).0,
            (earliest(ids, count)->0).1,
        ),
{
    let start = choose|start: u64| reuse::is_run(ids, start, count);
    let through = lemma_through_exists(ids, start, count);
    lemma_improve(ids, count, start, through);
}

/// A run ends somewhere.
proof fn lemma_through_exists(ids: Seq<u64>, start: u64, count: nat) -> (through: int)
    requires
        count > 0,
        reuse::is_run(ids, start, count),
    ensures
        0 <= through < ids.len(),
        reuse::run_through(ids, start, count, through),
{
    lemma_through_part(ids, start, count, count)
}

/// The first pages of a run end somewhere.
proof fn lemma_through_part(ids: Seq<u64>, start: u64, count: nat, part: nat) -> (through: int)
    requires
        0 < part <= count,
        reuse::is_run(ids, start, count),
    ensures
        0 <= through < ids.len(),
        exists|k: int| 0 <= k < part && reuse::first_at(ids, #[trigger] reuse::page_at(start, k), through),
        forall|k: int, at: int|
            #![trigger reuse::first_at(ids, reuse::page_at(start, k), at)]
            0 <= k < part && reuse::first_at(ids, reuse::page_at(start, k), at) ==> at <= through,
    decreases part,
{
    let last = part - 1;
    assert(ids.contains(reuse::page_at(start, last)));
    let here = reuse::lemma_first_exists(ids, reuse::page_at(start, last));
    assert(reuse::first_at(ids, reuse::page_at(start, last), here));
    if part == 1 {
        assert forall|k: int, at: int|
            #![trigger reuse::first_at(ids, reuse::page_at(start, k), at)]
            0 <= k < part && reuse::first_at(ids, reuse::page_at(start, k), at) implies at
            <= here by {
            assert(k == last);
        }
        here
    } else {
        let before = lemma_through_part(ids, start, count, last as nat);
        let k = choose|k: int|
            0 <= k < last && reuse::first_at(ids, #[trigger] reuse::page_at(start, k), before);
        assert(reuse::first_at(ids, reuse::page_at(start, k), before));
        let top = if here > before {
            here
        } else {
            before
        };
        assert forall|k: int, at: int|
            #![trigger reuse::first_at(ids, reuse::page_at(start, k), at)]
            0 <= k < part && reuse::first_at(ids, reuse::page_at(start, k), at) implies at
            <= top by {}
        top
    }
}

/// A run that is not the earliest can be improved on, until it is.
proof fn lemma_improve(ids: Seq<u64>, count: nat, start: u64, through: int)
    requires
        count > 0,
        reuse::is_run(ids, start, count),
        reuse::run_through(ids, start, count, through),
        0 <= through,
    ensures
        exists|found: (u64, int)| #[trigger]
            reuse::is_earliest_run(ids, count, found.0, found.1),
    decreases through, start,
{
    if reuse::is_earliest_run(ids, count, start, through) {
        let found = (start, through);
        assert(reuse::is_earliest_run(ids, count, found.0, found.1));
    } else {
        let (other, end) = choose|other: u64, end: int|
            #![trigger reuse::is_run(ids, other, count), reuse::run_through(ids, other, count, end)]
            reuse::is_run(ids, other, count) && reuse::run_through(ids, other, count, end) && !(
            through < end || (through == end && start <= other));
        let k = choose|k: int|
            0 <= k < count && reuse::first_at(ids, #[trigger] reuse::page_at(other, k), end);
        lemma_improve(ids, count, other, end);
    }
}

/// An allocated run consists of data pages that are in the file and zeroed,
/// and no other page changes.
pub proof fn law_allocated_run_is_zeroed(space: SpaceView, count: nat)
    requires
        count > 0,
        space.pages.len() >= 2,
        allocate(space, count).0 is Some,
        space.pages.len() <= u64::MAX,
    ensures
        ({
            let (first, after) = allocate(space, count);
            let start = first->0;
            &&& start >= reuse::SUPERBLOCK_SLOTS
            &&& start + count <= after.pages.len()
            &&& forall|i: int|
                start <= i < start + count ==> #[trigger] after.pages[i] == zero_page(
                    space.page_size,
                )
            &&& forall|i: int|
                0 <= i < space.pages.len() && !(start <= i < start + count)
                    ==> #[trigger] after.pages[i] == space.pages[i]
        }),
{
    let (served, middle) = deferred_reuse(space, count);
    if served is None && ledger_open(middle) {
        let extension = middle.free.extension->0;
        let head = extension.retire_ledger_head;
        let tail = extension.retire_ledger_tail;
        let skip = skip_capacity(middle);
        lemma_scan_run(
            middle.pages,
            middle.free.consumed,
            tail,
            middle.min_pin,
            count,
            skip,
            head,
            Seq::empty(),
            Seq::empty(),
        );
        match scan_from(
            middle.pages,
            middle.free.consumed,
            tail,
            middle.min_pin,
            count,
            skip,
            head,
            Seq::empty(),
            Seq::empty(),
        ) {
            Some(scan) => {
                if !scan_untrusted(middle.pages.len(), scan) && scan.run is Some {
                    let start = scan.run->0;
                    let ids = reuse::scanned_ids(scan.entries);
                    let low = reuse::page_at(start, 0);
                    assert(ids.contains(low));
                    let i = choose|i: int| 0 <= i < ids.len() && ids[i] == low;
                    assert(!offers_wrong(middle.pages.len(), scan, i));
                    let high = reuse::page_at(start, count - 1);
                    assert(ids.contains(high));
                    let j = choose|j: int| 0 <= j < ids.len() && ids[j] == high;
                    assert(!offers_wrong(middle.pages.len(), scan, j));
                    assert(high == start + count - 1);
                }
            },
            None => {},
        }
    }
}

/// The ledger pages that a retirement writes read back: each lists its share
/// of the retired pages, in order, and names the next.
pub proof fn law_fresh_pages_read_back(
    pages: Seq<Seq<u8>>,
    listing: Seq<u64>,
    fresh: Seq<u64>,
    lsn: u64,
    page_size: nat,
    count: nat,
    index: int,
)
    requires
        4096 <= page_size <= 65536,
        fresh.no_duplicates(),
        forall|i: int|
            0 <= i < fresh.len() ==> reusable(pages.len(), #[trigger] fresh[i]),
        fresh.len() == chunk_count(listing.len(), page_size),
        0 <= index < count <= fresh.len(),
    ensures
        ledger_at(fresh_written(pages, listing, fresh, lsn, page_size, count), fresh[index])
            == Some(
            fresh_ledger(listing, fresh, free_pages::capacity_of(page_size), lsn, index),
        ),
        fresh_written(pages, listing, fresh, lsn, page_size, count).len() == pages.len(),
    decreases count,
{
    let last = count - 1;
    let before = fresh_written(pages, listing, fresh, lsn, page_size, last as nat);
    let capacity = free_pages::capacity_of(page_size);
    if last > 0 {
        law_fresh_pages_read_back(
            pages,
            listing,
            fresh,
            lsn,
            page_size,
            last as nat,
            if index < last {
                index
            } else {
                0
            },
        );
    }
    assert(before.len() == pages.len());
    let written = fresh_ledger(listing, fresh, capacity, lsn, last);
    assert(reusable(pages.len(), fresh[last]));
    assert(reusable(pages.len(), fresh[index]));
    if index == last {
        let from = last * capacity;
        assert(from <= listing.len()) by {
            let c = capacity as int;
            let top = listing.len() + c - 1;
            vstd::arithmetic::div_mod::lemma_fundamental_div_mod(top, c);
            let whole = top / c;
            assert(from <= (whole - 1) * c) by (nonlinear_arith)
                requires
                    from == last * c,
                    last <= whole - 1,
                    c > 0,
            ;
            assert((whole - 1) * c == c * whole - c) by (nonlinear_arith);
        }
        assert(from >= 0) by (nonlinear_arith)
            requires
                from == last * capacity,
                last >= 0,
        ;
        assert(written.entries.len() <= capacity);
        free_pages::law_ledger_round_trip(written, page_size);
    } else {
        assert(fresh[index] != fresh[last]);
    }
}

/// The pages that a retirement lists in the end: those that it retires, save what it takes for the
/// ledger itself.
pub open spec fn listed_by(space: SpaceView, superseded: Set<u64>) -> Seq<u64> {
    let (chain, start) = unlink(compact(space));
    let listing = retired_set(space, superseded);
    let begin = GatherView {
        space: start,
        listing,
        deferred: start.free.deferred,
        fresh: Seq::empty(),
    };
    list_of(gather_all(begin, chain, chunk_count(listing.len(), space.page_size)).1.listing)
}

/// How many pages were ever retired, as the session counts: what its chain says, or what the chains
/// before it said.
pub open spec fn ever_retired(free: FreeView) -> nat {
    match free.extension {
        Some(extension) => extension.retired_total as nat,
        None => free.floor,
    }
}

/// A retirement raises the count of pages ever retired by the number of pages that it lists, as far
/// as the count can hold it.
pub proof fn law_retired_total_grows(space: SpaceView, superseded: Set<u64>, lsn: u64)
    requires
        retire(space, superseded, lsn).0 is None,
        !retired_set(space, superseded).is_empty(),
        space.free.floor <= u64::MAX,
    ensures
        ({
            let after = retire(space, superseded, lsn).1;
            let start = unlink(compact(space)).1;
            &&& after.free.pending is Some
            &&& after.free.pending->0.retired_total == saturating::capped(
                ever_retired(start.free) + listed_by(space, superseded).len(),
            )
            &&& start.free.extension is Some ==> ever_retired(start.free) == ever_retired(
                space.free,
            )
            &&& ever_retired(start.free) >= ever_retired(space.free)
        }),
{
    let (chain, start) = unlink(compact(space));
    let listing = retired_set(space, superseded);
    let begin = GatherView {
        space: start,
        listing,
        deferred: start.free.deferred,
        fresh: Seq::empty(),
    };
    lemma_gather_keeps(begin, chain, chunk_count(listing.len(), space.page_size));
}

proof fn lemma_gather_keeps(gather: GatherView, chain: ChainView, steps: nat)
    ensures
        gather_all(gather, chain, steps).1.space.free.extension == gather.space.free.extension,
        gather_all(gather, chain, steps).1.space.free.floor == gather.space.free.floor,
    decreases steps,
{
    if !(gather.fresh.len() >= pages_for(
        gather.listing.len(),
        free_pages::capacity_of(gather.space.page_size),
    ) || steps == 0) {
        match gather_one(gather, chain) {
            Some(next) => {
                lemma_gather_keeps(next, chain, (steps - 1) as nat);
            },
            None => {},
        }
    }
}

/// A finite set has an ascending list.
proof fn lemma_list_exists(set: Set<u64>)
    requires
        set.finite(),
    ensures
        lists(list_of(set), set),
        list_of(set).len() == set.len(),
    decreases set.len(),
{
    if set.len() == 0 {
        assert(set =~= Set::empty());
        assert(lists(Seq::empty(), set));
    } else {
        let leq = |a: u64, b: u64| a <= b;
        set.find_unique_maximal_ensures(leq);
        let top = set.find_unique_maximal(leq);
        let rest = set.remove(top);
        lemma_list_exists(rest);
        let below = list_of(rest);
        let list = below.push(top);
        assert forall|i: int, j: int| 0 <= i < j < list.len() implies #[trigger] list[i]
            < #[trigger] list[j] by {
            assert(below.contains(list[i]));
            if j < below.len() {
                assert(below[i] < below[j]);
            } else {
                assert(rest.contains(list[i]));
                assert(leq(list[i], top) || leq(top, list[i]));
            }
        }
        assert forall|id: u64| #[trigger] list.contains(id) <==> set.contains(id) by {
            if set.contains(id) && id != top {
                assert(below.contains(id));
                let k = choose|k: int| 0 <= k < below.len() && below[k] == id;
                assert(list[k] == id);
            }
            if id == top {
                assert(list[below.len() as int] == id);
            }
            if list.contains(id) {
                let k = choose|k: int| 0 <= k < list.len() && list[k] == id;
                if k < below.len() {
                    assert(below.contains(id));
                }
            }
        }
        assert(lists(list, set));
    }
    lemma_list_of(list_of(set), set);
}

/// Gathering withdraws deferred pages alone from what is listed, and takes no slot.
proof fn lemma_gather_lists(gather: GatherView, chain: ChainView, steps: nat, kept: Set<u64>)
    requires
        gather.listing.finite(),
        kept.subset_of(gather.listing),
        kept.disjoint(gather.deferred),
        gather.space.pages.len() >= reuse::SUPERBLOCK_SLOTS,
        gather.space.page_size > 0,
        forall|i: int|
            0 <= i < gather.fresh.len() ==> #[trigger] gather.fresh[i] >= reuse::SUPERBLOCK_SLOTS,
    ensures
        ({
            let (complete, after) = gather_all(gather, chain, steps);
            &&& after.listing.finite()
            &&& kept.subset_of(after.listing)
            &&& after.fresh.len() >= gather.fresh.len()
            &&& complete && steps > 0 && gather.fresh.len() < pages_for(
                gather.listing.len(),
                free_pages::capacity_of(gather.space.page_size),
            ) ==> after.fresh.len() > gather.fresh.len()
            &&& forall|i: int|
                0 <= i < after.fresh.len() ==> #[trigger] after.fresh[i] >= reuse::SUPERBLOCK_SLOTS
        }),
    decreases steps,
{
    if !(gather.fresh.len() >= pages_for(
        gather.listing.len(),
        free_pages::capacity_of(gather.space.page_size),
    ) || steps == 0) {
        match gather_one(gather, chain) {
            Some(next) => {
                if next_entry(gather, chain) is None && !(still_short(gather) && exists|id: u64|
                    is_next_deferred(gather, id)) {
                    let count = gather.space.pages.len();
                    assert(count + 1 <= u64::MAX) by (nonlinear_arith)
                        requires
                            (count + 1) * gather.space.page_size <= u64::MAX,
                            gather.space.page_size >= 1,
                    ;
                }
                lemma_gather_lists(next, chain, (steps - 1) as nat, kept);
            },
            None => {},
        }
    }
}

/// The longest free end of a file is found.
proof fn lemma_tail_exists(candidates: Set<u64>, page_count: nat, count: nat)
    requires
        tail_of(candidates, page_count, count),
        count <= page_count,
        count <= reuse::COMPACTION_TRUNCATE_PAGE_LIMIT,
    ensures
        exists|best: nat| is_tail(candidates, page_count, best),
    decreases reuse::COMPACTION_TRUNCATE_PAGE_LIMIT - count,
{
    if count < reuse::COMPACTION_TRUNCATE_PAGE_LIMIT && tail_of(candidates, page_count, count + 1) {
        lemma_tail_exists(candidates, page_count, count + 1);
    } else {
        assert(is_tail(candidates, page_count, count));
    }
}

/// Compaction and unlinking leave the slots and the page size alone, and the deferred pages
/// countable.
proof fn lemma_start_lawful(space: SpaceView)
    requires
        space.pages.len() >= reuse::SUPERBLOCK_SLOTS,
        space.free.deferred.finite(),
    ensures
        ({
            let start = unlink(compact(space)).1;
            &&& start.pages.len() >= reuse::SUPERBLOCK_SLOTS
            &&& start.page_size == space.page_size
            &&& start.free.deferred.finite()
            &&& start.free.extension == space.free.extension || start.free.extension is None
        }),
{
    match compaction_cut(space) {
        Some((scan, count)) => {
            let candidates = compaction_candidates(space.free, scan);
            lemma_tail_exists(candidates, space.pages.len(), 0);
            assert(is_tail(candidates, space.pages.len(), count));
            let kept = (space.pages.len() - count) as nat;
            let prefix = prefix_through(scan.entries, kept as int);
            let ids = prefix.map_values(|found: ScannedReuseEntry| found.entry.page_id);
            assert(listed(prefix).subset_of(ids.to_set())) by {
                assert forall|id: u64| #[trigger] listed(prefix).contains(id) implies ids.contains(
                    id,
                ) by {
                    let k = choose|k: int|
                        0 <= k < prefix.len() && (#[trigger] prefix[k]).entry.page_id == id;
                    assert(ids[k] == id);
                }
            }
            vstd::seq_lib::seq_to_set_is_finite(ids);
            vstd::set_lib::lemma_set_subset_finite(ids.to_set(), listed(prefix));
        },
        None => {},
    }
}

/// A retirement counts every page that it retires: pages of which none is free already raise the
/// count of pages ever retired by at least their number, as far as the count can hold it. The chain
/// that it stages names a ledger.
pub proof fn law_every_retired_page_counts(space: SpaceView, superseded: Set<u64>, lsn: u64)
    requires
        retire(space, superseded, lsn).0 is None,
        superseded.finite(),
        !superseded.is_empty(),
        superseded.disjoint(unlink(compact(space)).1.free.deferred),
        space.pages.len() >= reuse::SUPERBLOCK_SLOTS,
        space.free.deferred.finite(),
        space.free.floor <= u64::MAX,
        free_pages::capacity_of(space.page_size) > 0,
    ensures
        ({
            let after = retire(space, superseded, lsn).1;
            &&& after.free.pending is Some
            &&& after.free.pending->0.names_ledger()
            &&& after.free.pending->0.retired_total >= saturating::capped(
                ever_retired(space.free) + superseded.len(),
            )
        }),
{
    let (chain, start) = unlink(compact(space));
    let listing = retired_set(space, superseded);
    let gone = Set::new(|id: u64| chain.unlinked.contains(id));
    lemma_start_lawful(space);
    vstd::seq_lib::seq_to_set_is_finite(chain.unlinked);
    assert(gone =~= chain.unlinked.to_set());
    assert(superseded.union(gone).finite());
    assert(listing.finite());
    let id = superseded.choose();
    assert(listing.contains(id));
    let begin = GatherView {
        space: start,
        listing,
        deferred: start.free.deferred,
        fresh: Seq::empty(),
    };
    let steps = chunk_count(listing.len(), space.page_size);
    let capacity = free_pages::capacity_of(space.page_size);
    assert(listing.len() >= 1) by {
        vstd::set_lib::lemma_len_subset(superseded, listing);
        if superseded.len() == 0 {
            assert(superseded =~= Set::empty());
        }
    }
    assert((listing.len() + capacity - 1) / capacity as int >= 1) by (nonlinear_arith)
        requires
            listing.len() >= 1,
            capacity >= 1,
    ;
    lemma_gather_lists(begin, chain, steps, superseded);
    let after = gather_all(begin, chain, steps).1;
    lemma_list_exists(after.listing);
    vstd::set_lib::lemma_len_subset(superseded, after.listing);
    law_retired_total_grows(space, superseded, lsn);
}

/// Compaction stages no chain.
pub proof fn lemma_compact_stages(space: SpaceView)
    ensures
        compact(space).free.pending == space.free.pending,
        compact(space).free.pending_deferred == space.free.pending_deferred,
{
}

/// Unlinking stages no chain.
pub proof fn lemma_unlink_stages(space: SpaceView)
    ensures
        unlink(space).1.free.pending == space.free.pending,
        unlink(space).1.free.pending_deferred == space.free.pending_deferred,
{
}

/// Gathering stages no chain.
pub proof fn lemma_gather_stages(gather: GatherView, chain: ChainView, steps: nat)
    ensures
        gather_all(gather, chain, steps).1.space.free.pending == gather.space.free.pending,
        gather_all(gather, chain, steps).1.space.free.pending_deferred
            == gather.space.free.pending_deferred,
    decreases steps,
{
    if !(gather.fresh.len() >= pages_for(
        gather.listing.len(),
        free_pages::capacity_of(gather.space.page_size),
    ) || steps == 0) {
        match gather_one(gather, chain) {
            Some(next) => {
                lemma_gather_stages(next, chain, (steps - 1) as nat);
            },
            None => {},
        }
    }
}

} // verus!
