//! The pages of a database file with their free-page state: allocation and
//! retirement.

use vstd::prelude::*;

use crate::error::{invalid_argument, DevonResult, ErrorKind};
use crate::free_pages;
use crate::free_pages::{LedgerEntry, LedgerPage, LedgerView, SuperblockExtension};
use crate::pager::ledger;
use crate::pager::ledger::{
    ChainView, FreeView, GatherView, ScanView, SpaceView, COMPACTION_ENTRY_LIMIT,
    COMPACTION_LEDGER_PAGE_LIMIT, RUN_SCAN_SKIP_LIMIT,
};
use crate::pager::reuse;
use crate::pager::reuse::{
    compaction_threshold_reached, earliest_run, find_contiguous_run, reclaimable_tail,
    ScannedReuseEntry, SUPERBLOCK_SLOTS,
};
use crate::saturating;
use crate::saturating::plus;
use crate::sorted;
use crate::superblock;

verus! {

/// What has to be done to the file to make it equal to the pages.
#[derive(Debug, Clone, PartialEq, Eq)]
pub enum Action {
    /// Write one page.
    Write { page: u64, data: Vec<u8> },
    /// Flush to durable storage.
    Sync,
    /// Cut the file off behind this many pages.
    Truncate { pages: u64 },
}

/// What an action says.
#[verifier::ext_equal]
pub enum ActionView {
    Write { page: u64, data: Seq<u8> },
    Sync,
    Truncate { pages: u64 },
}

impl View for Action {
    type V = ActionView;

    open spec fn view(&self) -> ActionView {
        match self {
            Action::Write { page, data } => ActionView::Write { page: *page, data: data@ },
            Action::Sync => ActionView::Sync,
            Action::Truncate { pages } => ActionView::Truncate { pages: *pages },
        }
    }
}

/// What actions say.
pub open spec fn actions_of(actions: Seq<Action>) -> Seq<ActionView> {
    actions.map_values(|action: Action| action@)
}

/// The pages after one action.
pub open spec fn performed(pages: Seq<Seq<u8>>, action: ActionView, page_size: nat) -> Seq<
    Seq<u8>,
> {
    match action {
        ActionView::Write { page, data } => ledger::put_page(pages, page as int, data, page_size),
        ActionView::Sync => pages,
        ActionView::Truncate { pages: count } => pages.subrange(0, count as int),
    }
}

/// Whether an action can be done to these pages: only pages that are there are cut off.
pub open spec fn fits(pages: Seq<Seq<u8>>, action: ActionView) -> bool {
    action matches ActionView::Truncate { pages: count } ==> count <= pages.len()
}

/// The pages after actions in order.
pub open spec fn replayed(
    pages: Seq<Seq<u8>>,
    actions: Seq<ActionView>,
    page_size: nat,
) -> Seq<Seq<u8>>
    decreases actions.len(),
{
    if actions.len() == 0 {
        pages
    } else {
        performed(replayed(pages, actions.drop_last(), page_size), actions.last(), page_size)
    }
}

/// The writes that zero `count` pages from `start` on, in order.
pub open spec fn zero_writes(start: int, count: nat, page_size: nat) -> Seq<ActionView> {
    Seq::new(
        count,
        |i: int|
            ActionView::Write { page: (start + i) as u64, data: ledger::zero_page(page_size) },
    )
}

/// The writes that serve a run, where one is served.
pub open spec fn served_writes(first: Option<u64>, count: nat, page_size: nat) -> Seq<ActionView> {
    match first {
        Some(start) => zero_writes(start as int, count, page_size),
        None => Seq::empty(),
    }
}

/// Whether no action touches the superblock slots.
pub open spec fn spares_slots(actions: Seq<ActionView>) -> bool {
    forall|i: int| 0 <= i < actions.len() ==> is_spared(#[trigger] actions[i])
}

/// Whether an action leaves the superblock slots alone.
pub open spec fn is_spared(action: ActionView) -> bool {
    match action {
        ActionView::Write { page, .. } => page >= SUPERBLOCK_SLOTS,
        ActionView::Sync => true,
        ActionView::Truncate { pages } => pages >= SUPERBLOCK_SLOTS,
    }
}

/// What follows one list of actions in a longer one.
pub open spec fn added(before: Seq<ActionView>, after: Seq<ActionView>) -> Seq<ActionView> {
    after.subrange(before.len() as int, after.len() as int)
}

/// Whether a list of actions continues another.
pub open spec fn extends(before: Seq<ActionView>, after: Seq<ActionView>) -> bool {
    before.len() <= after.len() && after.subrange(0, before.len() as int) == before
}

/// Whether an action rewrites a ledger page with the session's consumed count.
pub open spec fn is_rewrite(space: SpaceView, action: ActionView) -> bool {
    action matches ActionView::Write { page, data } && {
        &&& ledger::reusable(space.pages.len(), page)
        &&& data == ledger::flushed_page(
            space.pages[page as int],
            page as int,
            space.free.consumed,
            space.page_size,
        )
    }
}

/// Whether these actions make the session's consumed counts durable: ledger pages are rewritten,
/// and then flushed; nothing is done where there are no counts.
pub open spec fn makes_counts_durable(space: SpaceView, actions: Seq<ActionView>) -> bool {
    if space.free.consumed == Map::<u64, u32>::empty() {
        actions.len() == 0
    } else {
        &&& actions.len() > 0
        &&& actions.last() is Sync
        &&& forall|i: int|
            0 <= i < actions.len() - 1 ==> is_rewrite(space, #[trigger] actions[i])
    }
}

/// Whether these are the actions of a compaction: the consumed counts are durable before the file
/// is cut off.
pub open spec fn compaction_actions(space: SpaceView, actions: Seq<ActionView>) -> bool {
    match ledger::compaction_cut(space) {
        None => actions.len() == 0,
        Some((scan, count)) => {
            let counts = actions.drop_last().drop_last();
            &&& actions.len() >= 2
            &&& makes_counts_durable(ledger::drained(space, scan, count), counts)
            &&& actions == counts + seq![
                ActionView::Truncate { pages: (space.pages.len() - count) as u64 },
                ActionView::Sync,
            ]
        },
    }
}

/// The writes of the fresh ledger pages, in order.
pub open spec fn fresh_writes(
    listing: Seq<u64>,
    fresh: Seq<u64>,
    lsn: u64,
    page_size: nat,
    count: nat,
) -> Seq<ActionView> {
    Seq::new(
        count,
        |i: int|
            ActionView::Write {
                page: fresh[i],
                data: free_pages::ledger_bytes(
                    ledger::fresh_ledger(
                        listing,
                        fresh,
                        free_pages::capacity_of(page_size),
                        lsn,
                        i,
                    ),
                    page_size,
                ),
            },
    )
}

/// The actions that write a chain: the fresh ledger pages, the link of the surviving tail to
/// them, and a flush.
pub open spec fn chain_actions(
    gather: GatherView,
    chain: ChainView,
    lsn: u64,
    list: Seq<u64>,
) -> Seq<ActionView> {
    let size = gather.space.page_size;
    let count = ledger::chunk_count(list.len(), size);
    let fresh = fresh_writes(list, gather.fresh, lsn, size, count);
    let written = ledger::fresh_written(
        ledger::flushed(gather.space).pages,
        list,
        gather.fresh,
        lsn,
        size,
        count,
    );
    let last = ledger::ledger_at(written, chain.tail);
    if chain.tail == 0 {
        fresh.push(ActionView::Sync)
    } else if last is None {
        fresh
    } else {
        fresh + seq![
            ActionView::Write {
                page: chain.tail,
                data: free_pages::ledger_bytes(
                    LedgerView { next: gather.fresh[0], ..last->0 },
                    size,
                ),
            },
            ActionView::Sync,
        ]
    }
}

/// Whether these are the actions of a retirement: those of the compaction, the pages that the file
/// grows by, the consumed counts made durable, and only then the chain, which is flushed in turn.
#[verifier::opaque]
pub open spec fn retire_actions(
    space: SpaceView,
    superseded: Set<u64>,
    lsn: u64,
    cut: Seq<ActionView>,
    counts: Seq<ActionView>,
    actions: Seq<ActionView>,
) -> bool {
    let (chain, start) = ledger::unlink(ledger::compact(space));
    let listing = ledger::retired_set(space, superseded);
    let begin = GatherView {
        space: start,
        listing,
        deferred: start.free.deferred,
        fresh: Seq::empty(),
    };
    let (complete, gather) = ledger::gather_all(
        begin,
        chain,
        ledger::chunk_count(listing.len(), space.page_size),
    );
    let grown = zero_writes(
        start.pages.len() as int,
        (gather.space.pages.len() - start.pages.len()) as nat,
        space.page_size,
    );
    &&& compaction_actions(space, cut)
    &&& if exists|id: u64| #[trigger] listing.contains(id) && id < SUPERBLOCK_SLOTS {
        actions == cut
    } else if listing.is_empty() {
        makes_counts_durable(start, counts) && actions == cut + counts
    } else if !complete {
        actions == cut + grown
    } else {
        &&& makes_counts_durable(gather.space, counts)
        &&& actions == cut + grown + counts + chain_actions(
            gather,
            chain,
            lsn,
            ledger::list_of(gather.listing),
        )
    }
}

/// The free-page state to fall back to where not all of the first `at` pending actions were done.
#[verifier::ext_equal]
pub struct MarkView {
    pub at: nat,
    pub free: FreeView,
}

/// The free-page state once only `done` of the pending actions could be done: what it was when the
/// first action that was not done was asked for.
pub open spec fn fallen_back(free: FreeView, marks: Seq<MarkView>, done: nat) -> FreeView
    decreases marks.len(),
{
    if marks.len() == 0 {
        free
    } else if marks[0].at > done {
        marks[0].free
    } else {
        fallen_back(free, marks.skip(1), done)
    }
}

/// The marks that were added.
pub open spec fn new_marks(before: Seq<MarkView>, after: Seq<MarkView>) -> Seq<MarkView> {
    after.subrange(before.len() as int, after.len() as int)
}

/// Whether marks go on from others.
pub open spec fn marks_extend(before: Seq<MarkView>, after: Seq<MarkView>) -> bool {
    before.len() <= after.len() && after.subrange(0, before.len() as int) == before
}

/// Whether two states stage the same chain.
pub open spec fn stages_same(a: FreeView, b: FreeView) -> bool {
    a.pending == b.pending && a.pending_deferred == b.pending_deferred
}

/// Whether marks fall back to states that stage the chain that was staged before, each of them
/// within the actions between two places.
#[verifier::opaque]
pub open spec fn unstaging(marks: Seq<MarkView>, free: FreeView, from: nat, to: nat) -> bool {
    forall|i: int|
        0 <= i < marks.len() ==> stages_same((#[trigger] marks[i]).free, free) && from
            <= marks[i].at <= to
}

proof fn lemma_no_marks(free: FreeView, from: nat, to: nat)
    ensures
        unstaging(Seq::empty(), free, from, to),
{
    reveal(unstaging);
}

/// Marks behind marks.
proof fn lemma_marks_after(
    first: Seq<MarkView>,
    middle: Seq<MarkView>,
    last: Seq<MarkView>,
    free: FreeView,
    later: FreeView,
    from: nat,
    between: nat,
    to: nat,
)
    requires
        marks_extend(first, middle),
        marks_extend(middle, last),
        unstaging(new_marks(first, middle), free, from, between),
        unstaging(new_marks(middle, last), later, between, to),
        stages_same(later, free),
        from <= between <= to,
    ensures
        marks_extend(first, last),
        unstaging(new_marks(first, last), free, from, to),
{
    reveal(unstaging);
    lemma_marks_continue(first, middle, last);
    let a = new_marks(first, middle);
    let b = new_marks(middle, last);
    assert forall|i: int| 0 <= i < (a + b).len() implies stages_same(
        (#[trigger] (a + b)[i]).free,
        free,
    ) && from <= (a + b)[i].at <= to by {
        if i < a.len() {
            assert((a + b)[i] == a[i]);
        } else {
            assert((a + b)[i] == b[i - a.len()]);
        }
    }
}

/// Marks stay within a wider range.
proof fn lemma_marks_widen(
    before: Seq<MarkView>,
    after: Seq<MarkView>,
    free: FreeView,
    lower: nat,
    from: nat,
    to: nat,
)
    requires
        lower <= from,
        exists|end: nat|
            end <= to && #[trigger] unstaging(new_marks(before, after), free, from, end),
    ensures
        unstaging(new_marks(before, after), free, lower, to),
{
    reveal(unstaging);
}

/// One mark more, or none.
proof fn lemma_marked(
    before: Seq<MarkView>,
    more: Seq<MarkView>,
    after: Seq<MarkView>,
    free: FreeView,
    from: nat,
    to: nat,
)
    requires
        after == before + more,
        more.len() <= 1,
        more.len() == 1 ==> stages_same(more[0].free, free) && from <= more[0].at <= to,
    ensures
        marks_extend(before, after),
        unstaging(new_marks(before, after), free, from, to),
{
    reveal(unstaging);
    assert(after.subrange(0, before.len() as int) =~= before);
    assert(new_marks(before, after) =~= more);
}

/// The mark that retiring a state's counts leaves.
pub open spec fn count_mark(space: SpaceView, at: nat) -> Seq<MarkView> {
    if space.free.consumed == Map::<u64, u32>::empty() {
        Seq::empty()
    } else {
        seq![MarkView { at, free: space.free }]
    }
}

/// Reads of pages, all at one place among the actions.
pub open spec fn reads_at(at: usize, ids: Seq<u64>) -> Seq<(usize, u64)> {
    ids.map_values(|id: u64| (at, id))
}

/// The pages that were read.
pub open spec fn pages_read(log: Seq<(usize, u64)>) -> Seq<u64> {
    log.map_values(|read: (usize, u64)| read.1)
}

/// Whether two spaces have the same reads and marks.
pub open spec fn noted(a: PageSpace, b: PageSpace) -> bool {
    a.log() == b.log() && a.marks() == b.marks()
}

/// Whether two spaces differ in their reads at most.
pub open spec fn same_but_log(a: PageSpace, b: PageSpace) -> bool {
    &&& a@ == b@
    &&& a.pending() == b.pending()
    &&& a.on_file() == b.on_file()
    &&& a.marks() == b.marks()
}

/// A free-page state, and where it counts.
#[derive(Debug)]
struct Mark {
    at: usize,
    free: FreeState,
}

/// How to take an action back.
#[derive(Debug)]
enum Undo {
    /// Nothing was changed.
    Keep,
    /// A page held these bytes.
    Put { page: usize, data: Vec<u8> },
    /// The file had this many pages.
    Shrink { pages: usize },
    /// These pages were cut off.
    Regrow { tail: Vec<Vec<u8>> },
}

/// The pages before an action that can be taken back.
spec fn undone(pages: Seq<Seq<u8>>, undo: Undo) -> Seq<Seq<u8>> {
    match undo {
        Undo::Keep => pages,
        Undo::Put { page, data } => pages.update(page as int, data@),
        Undo::Shrink { pages: count } => pages.subrange(0, count as int),
        Undo::Regrow { tail } => pages + tail@.map_values(|page: Vec<u8>| page@),
    }
}

/// Whether an undo can be carried out on so many pages.
spec fn undoable(pages: Seq<Seq<u8>>, undo: Undo) -> bool {
    match undo {
        Undo::Keep => true,
        Undo::Put { page, .. } => page < pages.len(),
        Undo::Shrink { pages: count } => count <= pages.len(),
        Undo::Regrow { .. } => true,
    }
}

/// Whether every action can be taken back, the last first.
spec fn reversible(
    base: Seq<Seq<u8>>,
    actions: Seq<ActionView>,
    undos: Seq<Undo>,
    page_size: nat,
) -> bool {
    &&& actions.len() == undos.len()
    &&& forall|k: int|
        0 <= k < undos.len() ==> #[trigger] undoes(base, actions, undos, page_size, k)
}

/// Whether undo `k` leads from the pages after action `k` to those before it.
spec fn undoes(
    base: Seq<Seq<u8>>,
    actions: Seq<ActionView>,
    undos: Seq<Undo>,
    page_size: nat,
    k: int,
) -> bool {
    let before = replayed(base, actions.subrange(0, k), page_size);
    let after = replayed(base, actions.subrange(0, k + 1), page_size);
    &&& undoable(after, undos[k])
    &&& undone(after, undos[k]) == before
    &&& shaped(base, before, page_size)
    &&& fits(before, actions[k])
}

/// Whether pages have one size, and the slots are there if they were in the file.
spec fn shaped(base: Seq<Seq<u8>>, pages: Seq<Seq<u8>>, page_size: nat) -> bool {
    &&& base.len() >= 2 ==> pages.len() >= 2
    &&& forall|i: int| 0 <= i < pages.len() ==> (#[trigger] pages[i]).len() == page_size
}

/// One more action that can be taken back keeps all of them so.
proof fn lemma_reversible_push(
    base: Seq<Seq<u8>>,
    actions: Seq<ActionView>,
    undos: Seq<Undo>,
    page_size: nat,
    action: ActionView,
    undo: Undo,
)
    requires
        reversible(base, actions, undos, page_size),
        ({
            let before = replayed(base, actions, page_size);
            let after = performed(before, action, page_size);
            &&& undoable(after, undo)
            &&& undone(after, undo) == before
            &&& shaped(base, before, page_size)
            &&& fits(before, action)
        }),
    ensures
        reversible(base, actions.push(action), undos.push(undo), page_size),
        replayed(base, actions.push(action), page_size) == performed(
            replayed(base, actions, page_size),
            action,
            page_size,
        ),
{
    let more = actions.push(action);
    let rest = undos.push(undo);
    assert(more.drop_last() =~= actions);
    assert forall|k: int| 0 <= k < rest.len() implies #[trigger] undoes(
        base,
        more,
        rest,
        page_size,
        k,
    ) by {
        if k < undos.len() {
            assert(undoes(base, actions, undos, page_size, k));
            assert(more.subrange(0, k) =~= actions.subrange(0, k));
            assert(more.subrange(0, k + 1) =~= actions.subrange(0, k + 1));
        } else {
            assert(more.subrange(0, k) =~= actions);
            assert(more.subrange(0, k + 1) =~= more);
        }
    }
}

/// Consumed counts by ledger page.
#[derive(Debug)]
pub struct ConsumedCounts {
    keys: Vec<u64>,
    counts: Vec<u32>,
}

/// Where a number stands in a list.
pub open spec fn index_in(list: Seq<u64>, key: u64) -> int {
    choose|i: int| 0 <= i < list.len() && list[i] == key
}

impl View for ConsumedCounts {
    type V = Map<u64, u32>;

    closed spec fn view(&self) -> Map<u64, u32> {
        Map::new(
            |key: u64| self.keys@.contains(key),
            |key: u64| self.counts@[index_in(self.keys@, key)],
        )
    }
}

impl ConsumedCounts {
    /// The keys ascend, and each has a count.
    pub closed spec fn wf(self) -> bool {
        sorted::ascending(self.keys@) && self.keys@.len() == self.counts@.len()
    }

    /// No counts.
    pub fn new() -> (counts: ConsumedCounts)
        ensures
            counts.wf(),
            counts@ == Map::<u64, u32>::empty(),
    {
        let counts = ConsumedCounts { keys: Vec::new(), counts: Vec::new() };
        assert(counts@ =~= Map::<u64, u32>::empty());
        counts
    }

    /// The count of a page.
    pub fn get(&self, key: u64) -> (found: Option<u32>)
        requires
            self.wf(),
        ensures
            match found {
                Some(count) => self@.dom().contains(key) && self@[key] == count,
                None => !self@.dom().contains(key),
            },
    {
        let (there, at): (bool, usize) = sorted::search(&self.keys, key);
        if there {
            assert(index_in(self.keys@, key) == at) by {
                lemma_index(self.keys@, key, at as int);
            }
            Some(self.counts[at])
        } else {
            None
        }
    }

    /// Sets the count of a page.
    pub fn set(&mut self, key: u64, count: u32)
        requires
            old(self).wf(),
        ensures
            final(self).wf(),
            final(self)@ == old(self)@.insert(key, count),
    {
        let ghost before = *self;
        let (there, at): (bool, usize) = sorted::search(&self.keys, key);
        if there {
            self.counts.set(at, count);
            proof {
                assert forall|k: u64| self@.dom().contains(k) implies self@[k] == before@.insert(
                    key,
                    count,
                )[k] by {
                    lemma_index(self.keys@, k, index_in(self.keys@, k));
                    lemma_index(self.keys@, key, at as int);
                }
                assert(self@ =~= before@.insert(key, count));
            }
        } else {
            self.keys.insert(at, key);
            self.counts.insert(at, count);
            proof {
                let keys = self.keys@;
                let old_keys = before.keys@;
                assert forall|k: u64| #[trigger] keys.contains(k) <==> old_keys.contains(k) || k
                    == key by {
                    if old_keys.contains(k) {
                        let i = index_in(old_keys, k);
                        if i < at {
                            assert(keys[i] == k);
                        } else {
                            assert(keys[i + 1] == k);
                        }
                    }
                    if k == key {
                        assert(keys[at as int] == k);
                    }
                    if keys.contains(k) && k != key {
                        let i = index_in(keys, k);
                        if i < at {
                            assert(old_keys[i] == k);
                        } else {
                            assert(old_keys[i - 1] == k);
                        }
                    }
                }
                assert forall|k: u64| self@.dom().contains(k) implies self@[k] == before@.insert(
                    key,
                    count,
                )[k] by {
                    if k == key {
                        lemma_index(keys, k, at as int);
                    } else {
                        let i = index_in(old_keys, k);
                        assert(old_keys.contains(k));
                        if i < at {
                            lemma_index(keys, k, i);
                        } else {
                            lemma_index(keys, k, i + 1);
                        }
                    }
                }
                assert(self@ =~= before@.insert(key, count));
            }
        }
    }

    /// Raises the count of a page.
    pub fn raise(&mut self, key: u64, count: u32)
        requires
            old(self).wf(),
        ensures
            final(self).wf(),
            final(self)@ == ledger::raised(old(self)@, key, count),
    {
        match self.get(key) {
            Some(held) => {
                if held <= count {
                    self.set(key, count);
                }
            },
            None => {
                self.set(key, count);
            },
        }
    }

    /// Forgets all counts.
    pub fn clear(&mut self)
        ensures
            final(self).wf(),
            final(self)@ == Map::<u64, u32>::empty(),
    {
        *self = ConsumedCounts::new();
    }
}

proof fn lemma_index(list: Seq<u64>, key: u64, at: int)
    requires
        sorted::ascending(list),
        0 <= at < list.len(),
        list[at] == key,
    ensures
        index_in(list, key) == at,
{
    let i = index_in(list, key);
    if i < at {
        assert(list[i] < list[at]);
    } else if i > at {
        assert(list[at] < list[i]);
    }
}

/// The free-page state of a session.
#[derive(Debug)]
pub struct FreeState {
    pub extension: Option<SuperblockExtension>,
    pub degraded: bool,
    pub pending_extension: Option<SuperblockExtension>,
    pub consumed_in_session: ConsumedCounts,
    pub reused_in_session: u64,
    pub truncated_in_session: u64,
    pub deferred_reuse: Vec<u64>,
    pub pending_deferred_reuse: Vec<u64>,
    pub retired_total_floor: u64,
}

/// The members of a list.
pub open spec fn members(list: Seq<u64>) -> Set<u64> {
    Set::new(|id: u64| list.contains(id))
}

impl View for FreeState {
    type V = FreeView;

    open spec fn view(&self) -> FreeView {
        FreeView {
            extension: self.extension,
            degraded: self.degraded,
            pending: self.pending_extension,
            consumed: self.consumed_in_session@,
            reused: self.reused_in_session as nat,
            truncated: self.truncated_in_session as nat,
            deferred: members(self.deferred_reuse@),
            pending_deferred: members(self.pending_deferred_reuse@),
            floor: self.retired_total_floor as nat,
        }
    }
}

impl FreeState {
    /// The lists ascend.
    pub open spec fn wf(self) -> bool {
        &&& self.consumed_in_session.wf()
        &&& sorted::ascending(self.deferred_reuse@)
        &&& sorted::ascending(self.pending_deferred_reuse@)
    }

    /// The state of a file without a ledger.
    pub fn new() -> (free: FreeState)
        ensures
            free.wf(),
            free@ == fresh_free(),
    {
        let free = FreeState {
            extension: None,
            degraded: false,
            pending_extension: None,
            consumed_in_session: ConsumedCounts::new(),
            reused_in_session: 0,
            truncated_in_session: 0,
            deferred_reuse: Vec::new(),
            pending_deferred_reuse: Vec::new(),
            retired_total_floor: 0,
        };
        assert(free@ =~= fresh_free());
        free
    }

    /// The same state once more.
    fn duplicate(&self) -> (copy: FreeState)
        requires
            self.wf(),
        ensures
            copy.wf(),
            copy@ == self@,
    {
        let keys: Vec<u64> = self.consumed_in_session.keys.clone();
        let counts: Vec<u32> = self.consumed_in_session.counts.clone();
        let deferred: Vec<u64> = self.deferred_reuse.clone();
        let pending: Vec<u64> = self.pending_deferred_reuse.clone();
        assert(keys@ =~= self.consumed_in_session.keys@);
        assert(counts@ =~= self.consumed_in_session.counts@);
        assert(deferred@ =~= self.deferred_reuse@);
        assert(pending@ =~= self.pending_deferred_reuse@);
        let copy = FreeState {
            extension: self.extension,
            degraded: self.degraded,
            pending_extension: self.pending_extension,
            consumed_in_session: ConsumedCounts { keys, counts },
            reused_in_session: self.reused_in_session,
            truncated_in_session: self.truncated_in_session,
            deferred_reuse: deferred,
            pending_deferred_reuse: pending,
            retired_total_floor: self.retired_total_floor,
        };
        assert(copy.consumed_in_session@ =~= self.consumed_in_session@);
        assert(copy@ =~= self@);
        copy
    }

    /// Abandons the chain: reading is untouched, allocation grows the file,
    /// and the next publication starts a fresh chain.
    pub fn degrade(&mut self)
        requires
            old(self).wf(),
        ensures
            final(self).wf(),
            final(self)@ == ledger::abandoned(old(self)@),
    {
        let ghost before = self@;
        if let Some(extension) = self.extension {
            if extension.retired_total > self.retired_total_floor {
                self.retired_total_floor = extension.retired_total;
            }
        }
        self.extension = None;
        self.degraded = true;
        self.consumed_in_session.clear();
        assert(self@ =~= ledger::abandoned(before));
    }
}

/// The state of a file without a ledger.
pub open spec fn fresh_free() -> FreeView {
    FreeView {
        extension: None,
        degraded: false,
        pending: None,
        consumed: Map::empty(),
        reused: 0,
        truncated: 0,
        deferred: Set::empty(),
        pending_deferred: Set::empty(),
        floor: 0,
    }
}

/// What a walk along the ledger found.
#[derive(Debug)]
struct Scan {
    entries: Vec<ScannedReuseEntry>,
    visited: Vec<u64>,
    run: Option<u64>,
}

impl View for Scan {
    type V = ScanView;

    closed spec fn view(&self) -> ScanView {
        ScanView { entries: self.entries@, visited: self.visited@, run: self.run }
    }
}

/// Whether the list holds the number.
fn listed_in(list: &Vec<u64>, key: u64) -> (yes: bool)
    ensures
        yes == list@.contains(key),
{
    let mut i: usize = 0;
    while i < list.len()
        invariant
            i <= list@.len(),
            forall|j: int| 0 <= j < i ==> #[trigger] list@[j] != key,
        decreases list@.len() - i,
    {
        if list[i] == key {
            return true;
        }
        i += 1;
    }
    false
}

/// The pages of a file, the actions that the file still lacks, and the
/// free-page state.
pub struct PageSpace {
    page_size: u32,
    pages: Vec<Vec<u8>>,
    actions: Vec<Action>,
    undos: Vec<Undo>,
    base: Ghost<Seq<Seq<u8>>>,
    reads: Vec<(usize, u64)>,
    marks: Vec<Mark>,
    free: FreeState,
    min_pin: u64,
    truncates: bool,
}

impl View for PageSpace {
    type V = SpaceView;

    closed spec fn view(&self) -> SpaceView {
        SpaceView {
            page_size: self.page_size as nat,
            pages: self.pages@.map_values(|page: Vec<u8>| page@),
            free: self.free@,
            min_pin: self.min_pin as nat,
            truncates: self.truncates,
        }
    }
}

impl PageSpace {
    /// The pages have one lawful size, the superblock slots are there, and
    /// the pending actions lead from the file to the pages.
    pub closed spec fn wf(self) -> bool {
        &&& superblock::is_page_size(self.page_size)
        &&& self@.pages.len() >= 2
        &&& forall|i: int|
            0 <= i < self@.pages.len() ==> (#[trigger] self@.pages[i]).len() == self.page_size
        &&& replayed(self.base@, self.pending(), self.page_size as nat) == self@.pages
        &&& reversible(self.base@, self.pending(), self.undos@, self.page_size as nat)
        &&& self.free.wf()
        &&& forall|i: int| 0 <= i < self.marks@.len() ==> (#[trigger] self.marks@[i]).free.wf()
    }

    /// The ledger pages that were read and not yet counted, each with how many actions were
    /// pending then.
    pub closed spec fn log(self) -> Seq<(usize, u64)> {
        self.reads@
    }

    /// The free-page states to fall back to where pending actions cannot be done.
    pub closed spec fn marks(self) -> Seq<MarkView> {
        self.marks@.map_values(|mark: Mark| MarkView { at: mark.at as nat, free: mark.free@ })
    }

    /// The pages that the file held when its actions were last taken.
    pub closed spec fn on_file(self) -> Seq<Seq<u8>> {
        self.base@
    }

    /// The actions that the file still lacks.
    pub closed spec fn pending(self) -> Seq<ActionView> {
        actions_of(self.actions@)
    }

    /// What a lawful space guarantees.
    pub proof fn lemma_wf(self)
        requires
            self.wf(),
        ensures
            superblock::is_page_size(self@.page_size as u32),
            self@.page_size <= 65536,
            self@.pages.len() >= 2,
            forall|i: int|
                0 <= i < self@.pages.len() ==> (#[trigger] self@.pages[i]).len()
                    == self@.page_size,
            replayed(self.on_file(), self.pending(), self@.page_size) == self@.pages,
    {
    }

    /// The pages after the first `k` pending actions have one size, and the
    /// slots are there if they were in the file.
    pub proof fn lemma_prefix(self, k: int)
        requires
            self.wf(),
            0 <= k <= self.pending().len(),
        ensures
            ({
                let pages = replayed(self.on_file(), self.pending().subrange(0, k), self@.page_size);
                &&& self.on_file().len() >= 2 ==> pages.len() >= 2
                &&& forall|i: int|
                    0 <= i < pages.len() ==> (#[trigger] pages[i]).len() == self@.page_size
                &&& k < self.pending().len() ==> fits(pages, self.pending()[k])
            }),
    {
        if k < self.pending().len() {
            assert(undoes(self.base@, self.pending(), self.undos@, self.page_size as nat, k));
        } else {
            assert(self.pending().subrange(0, k) =~= self.pending());
        }
    }

    /// The space of a file with these pages.
    pub fn new(page_size: u32, pages: Vec<Vec<u8>>, free: FreeState, truncates: bool) -> (space:
        PageSpace)
        requires
            superblock::is_page_size(page_size),
            pages@.len() >= 2,
            forall|i: int| 0 <= i < pages@.len() ==> (#[trigger] pages@[i])@.len() == page_size,
            free.wf(),
        ensures
            space.wf(),
            space@.page_size == page_size,
            space@.pages == pages@.map_values(|page: Vec<u8>| page@),
            space@.free == free@,
            space@.min_pin == 0,
            space@.truncates == truncates,
            space.pending().len() == 0,
            space.on_file() == space@.pages,
            space.log().len() == 0,
            space.marks().len() == 0,
    {
        let ghost shown = pages@.map_values(|page: Vec<u8>| page@);
        let space = PageSpace {
            page_size,
            pages,
            actions: Vec::new(),
            undos: Vec::new(),
            base: Ghost(shown),
            reads: Vec::new(),
            marks: Vec::new(),
            free,
            min_pin: 0,
            truncates,
        };
        assert(space@.pages =~= shown);
        space
    }

    /// The space of a file that is still to be written: two slot pages.
    pub fn created(page_size: u32, slot: Vec<u8>, truncates: bool) -> (space: PageSpace)
        requires
            superblock::is_page_size(page_size),
            slot@.len() == page_size,
        ensures
            space.wf(),
            space@.page_size == page_size,
            space@.pages == seq![slot@, slot@],
            space@.free == fresh_free(),
            space@.min_pin == 0,
            space@.truncates == truncates,
            space.on_file().len() == 0,
            space.log().len() == 0,
            space.marks().len() == 0,
            space.pending() == seq![
                ActionView::Write { page: 0, data: slot@ },
                ActionView::Write { page: 1, data: slot@ },
                ActionView::Sync,
            ],
    {
        let ghost bytes = slot@;
        let second: Vec<u8> = slot.clone();
        assert(second@ =~= bytes);
        let first_copy: Vec<u8> = slot.clone();
        assert(first_copy@ =~= bytes);
        let second_copy: Vec<u8> = slot.clone();
        assert(second_copy@ =~= bytes);
        let mut pages: Vec<Vec<u8>> = Vec::new();
        pages.push(slot);
        pages.push(second);
        let mut actions: Vec<Action> = Vec::new();
        actions.push(Action::Write { page: 0, data: first_copy });
        actions.push(Action::Write { page: 1, data: second_copy });
        actions.push(Action::Sync);
        let mut undos: Vec<Undo> = Vec::new();
        undos.push(Undo::Shrink { pages: 0 });
        undos.push(Undo::Shrink { pages: 1 });
        undos.push(Undo::Keep);
        let space = PageSpace {
            page_size,
            pages,
            actions,
            undos,
            base: Ghost(Seq::empty()),
            reads: Vec::new(),
            marks: Vec::new(),
            free: FreeState::new(),
            min_pin: 0,
            truncates,
        };
        proof {
            let none = Seq::<Seq<u8>>::empty();
            let size = page_size as nat;
            let first = ActionView::Write { page: 0, data: bytes };
            let second = ActionView::Write { page: 1, data: bytes };
            let start = Seq::<ActionView>::empty();
            let taken = Seq::<Undo>::empty();
            assert(replayed(none, start, size) == none);
            assert(reversible(none, start, taken, size));
            assert(performed(none, first, size) =~= seq![bytes]);
            assert(undone(seq![bytes], Undo::Shrink { pages: 0 }) =~= none);
            lemma_reversible_push(none, start, taken, size, first, space.undos@[0]);
            assert(performed(seq![bytes], second, size) =~= seq![bytes, bytes]);
            assert(undone(seq![bytes, bytes], Undo::Shrink { pages: 1 }) =~= seq![bytes]);
            lemma_reversible_push(
                none,
                start.push(first),
                taken.push(space.undos@[0]),
                size,
                second,
                space.undos@[1],
            );
            lemma_reversible_push(
                none,
                start.push(first).push(second),
                taken.push(space.undos@[0]).push(space.undos@[1]),
                size,
                ActionView::Sync,
                space.undos@[2],
            );
            assert(space.pending() =~= start.push(first).push(second).push(ActionView::Sync));
            assert(space.undos@ =~= taken.push(space.undos@[0]).push(space.undos@[1]).push(
                space.undos@[2],
            ));
            assert(space@.pages =~= seq![bytes, bytes]);
        }
        space
    }

    /// How many pages there are.
    pub fn page_count(&self) -> (count: usize)
        ensures
            count == self@.pages.len(),
    {
        self.pages.len()
    }

    /// The size of a page.
    pub fn page_size(&self) -> (size: u32)
        ensures
            size == self@.page_size,
    {
        self.page_size
    }

    /// One page.
    pub fn page(&self, id: usize) -> (page: &Vec<u8>)
        requires
            id < self@.pages.len(),
        ensures
            page@ == self@.pages[id as int],
    {
        &self.pages[id]
    }

    /// Hands over the actions that the file lacks.
    pub fn take_actions(&mut self) -> (actions: Vec<Action>)
        requires
            old(self).wf(),
        ensures
            final(self).wf(),
            final(self)@ == old(self)@,
            actions_of(actions@) == old(self).pending(),
            final(self).pending().len() == 0,
            final(self).on_file() == old(self)@.pages,
            final(self).log() == old(self).log(),
            final(self).marks().len() == 0,
    {
        let mut actions: Vec<Action> = Vec::new();
        std::mem::swap(&mut actions, &mut self.actions);
        self.undos = Vec::new();
        self.marks = Vec::new();
        let ghost shown = self@.pages;
        self.base = Ghost(shown);
        assert(self@ =~= old(self)@);
        actions
    }

    /// The actions that the file lacks, in order.
    pub fn actions(&self) -> (actions: &Vec<Action>)
        ensures
            actions_of(actions@) == self.pending(),
    {
        &self.actions
    }

    /// Takes back the actions behind the first `done`, which could not be done.
    pub fn rewind(&mut self, done: usize)
        requires
            old(self).wf(),
            done <= old(self).pending().len(),
            old(self).on_file().len() >= 2,
        ensures
            final(self).wf(),
            final(self)@ == (SpaceView {
                pages: replayed(
                    old(self).on_file(),
                    old(self).pending().subrange(0, done as int),
                    old(self)@.page_size,
                ),
                free: fallen_back(old(self)@.free, old(self).marks(), done as nat),
                ..old(self)@
            }),
            final(self).on_file() == final(self)@.pages,
            final(self).pending().len() == 0,
            final(self).log() == old(self).log(),
            final(self).marks().len() == 0,
    {
        let ghost all = self.pending();
        let ghost undos = self.undos@;
        let ghost base = self.base@;
        let ghost size = self.page_size as nat;
        proof {
            assert(all.subrange(0, all.len() as int) =~= all);
            assert(undos.subrange(0, undos.len() as int) =~= undos);
        }
        while self.actions.len() > done
            invariant
                done <= self.actions@.len() <= all.len(),
                self.pending() == all.subrange(0, self.actions@.len() as int),
                self.undos@ == undos.subrange(0, self.actions@.len() as int),
                reversible(base, all, undos, size),
                self@.pages == replayed(base, self.pending(), size),
                shaped(base, self@.pages, size),
                self.free == old(self).free,
                self.min_pin == old(self).min_pin,
                self.truncates == old(self).truncates,
                self.page_size == old(self).page_size,
                self.marks == old(self).marks,
                self.reads == old(self).reads,
            decreases self.actions@.len(),
        {
            let ghost before = self@.pages;
            let ghost count = self.actions@.len();
            proof {
                assert(undoes(base, all, undos, size, count - 1));
                assert(self.pending()[count - 1] == self.actions@[count - 1]@);
                assert(self.undos@[count - 1] == undos[count - 1]);
            }
            self.actions.pop();
            let undo: Option<Undo> = self.undos.pop();
            match undo {
                Some(Undo::Put { page, data }) => {
                    let ghost bytes = data@;
                    self.pages.set(page, data);
                    assert(self@.pages =~= before.update(page as int, bytes));
                },
                Some(Undo::Shrink { pages }) => {
                    self.pages.truncate(pages);
                    assert(self@.pages =~= before.subrange(0, pages as int));
                },
                Some(Undo::Regrow { tail }) => {
                    let mut tail: Vec<Vec<u8>> = tail;
                    let ghost cut = tail@.map_values(|page: Vec<u8>| page@);
                    self.pages.append(&mut tail);
                    assert(self@.pages =~= before + cut);
                },
                _ => {},
            }
            proof {
                assert(self.pending() =~= all.subrange(0, count - 1));
                assert(self.undos@ =~= undos.subrange(0, count - 1));
            }
        }
        self.actions = Vec::new();
        self.undos = Vec::new();
        let ghost shown = self@.pages;
        self.base = Ghost(shown);
        let mut marks: Vec<Mark> = Vec::new();
        std::mem::swap(&mut marks, &mut self.marks);
        let ghost shown_marks = old(self).marks();
        let mut i: usize = 0;
        assert(shown_marks.skip(0) =~= shown_marks);
        while i < marks.len() && marks[i].at <= done
            invariant
                i <= marks@.len() == shown_marks.len(),
                forall|k: int|
                    0 <= k < marks@.len() ==> #[trigger] shown_marks[k] == (MarkView {
                        at: marks@[k].at as nat,
                        free: marks@[k].free@,
                    }),
                fallen_back(old(self)@.free, shown_marks, done as nat) == fallen_back(
                    old(self)@.free,
                    shown_marks.skip(i as int),
                    done as nat,
                ),
            decreases marks@.len() - i,
        {
            assert(shown_marks.skip(i as int)[0] == shown_marks[i as int]);
            assert(shown_marks.skip(i as int).skip(1) =~= shown_marks.skip(i + 1));
            i += 1;
        }
        if i < marks.len() {
            assert(shown_marks.skip(i as int)[0] == shown_marks[i as int]);
            let mark: Mark = marks.swap_remove(i);
            self.free = mark.free;
        } else {
            assert(shown_marks.skip(i as int) =~= Seq::empty());
        }
        proof {
            assert(self.pending() =~= Seq::empty());
            assert(self@ =~= SpaceView {
                pages: shown,
                free: fallen_back(old(self)@.free, shown_marks, done as nat),
                ..old(self)@
            });
        }
    }

    /// Asks for a flush.
    pub fn sync(&mut self)
        requires
            old(self).wf(),
        ensures
            final(self).wf(),
            final(self)@ == old(self)@,
            final(self).on_file() == old(self).on_file(),
            noted(*final(self), *old(self)),
            final(self).pending() == old(self).pending().push(ActionView::Sync),
    {
        let ghost before = self.pending();
        let ghost taken = self.undos@;
        self.actions.push(Action::Sync);
        self.undos.push(Undo::Keep);
        proof {
            lemma_reversible_push(
                self.base@,
                before,
                taken,
                self.page_size as nat,
                ActionView::Sync,
                Undo::Keep,
            );
            assert(self.pending() =~= before.push(ActionView::Sync));
            assert(self@ =~= old(self)@);
        }
    }

    /// Writes one page, growing the file where it must.
    pub fn write(&mut self, id: usize, data: Vec<u8>)
        requires
            old(self).wf(),
            data@.len() == old(self)@.page_size,
        ensures
            final(self).wf(),
            final(self)@ == (SpaceView {
                pages: ledger::put_page(
                    old(self)@.pages,
                    id as int,
                    data@,
                    old(self)@.page_size,
                ),
                ..old(self)@
            }),
            final(self).on_file() == old(self).on_file(),
            noted(*final(self), *old(self)),
            final(self).pending() == old(self).pending().push(
                (ActionView::Write { page: id as u64, data: data@ }),
            ),
    {
        let ghost before = self@.pages;
        let ghost prior = self.actions@;
        let ghost asked = self.pending();
        let ghost taken = self.undos@;
        let ghost bytes = data@;
        let size: usize = self.page_size as usize;
        let ghost count = before.len();
        let undo: Undo = if id < self.pages.len() {
            let held: Vec<u8> = self.pages[id].clone();
            assert(held@ =~= before[id as int]);
            Undo::Put { page: id, data: held }
        } else {
            Undo::Shrink { pages: self.pages.len() }
        };
        while self.pages.len() < id
            invariant
                count <= self.pages@.len(),
                self.pages@.len() <= id || self.pages@.len() == count,
                size == self.page_size,
                self.page_size == old(self).page_size,
                self.free == old(self).free,
                self.min_pin == old(self).min_pin,
                self.truncates == old(self).truncates,
                self.base == old(self).base,
                self.reads == old(self).reads,
                self.marks == old(self).marks,
                self.actions@ == prior,
                self.undos@ == taken,
                count == before.len(),
                self@.pages == before + Seq::new(
                    (self.pages@.len() - count) as nat,
                    |i: int| ledger::zero_page(size as nat),
                ),
            decreases id - self.pages@.len(),
        {
            let ghost so_far = self@.pages;
            let page: Vec<u8> = zero_bytes(size);
            self.pages.push(page);
            assert(self@.pages =~= so_far.push(ledger::zero_page(size as nat)));
            assert(self@.pages =~= before + Seq::new(
                (self.pages@.len() - count) as nat,
                |i: int| ledger::zero_page(size as nat),
            ));
        }
        let copy: Vec<u8> = data.clone();
        assert(copy@ =~= bytes);
        if id < self.pages.len() {
            self.pages.set(id, data);
            assert(self@.pages =~= before.update(id as int, bytes));
        } else {
            let ghost so_far = self@.pages;
            self.pages.push(data);
            assert(self@.pages =~= so_far.push(bytes));
        }
        self.actions.push(Action::Write { page: id as u64, data: copy });
        self.undos.push(undo);
        proof {
            let action = ActionView::Write { page: id as u64, data: bytes };
            assert(self.pending() =~= asked.push(action));
            assert(self@.pages =~= ledger::put_page(before, id as int, bytes, size as nat));
            assert(undone(self@.pages, undo) =~= before);
            lemma_reversible_push(self.base@, asked, taken, size as nat, action, undo);
            assert forall|i: int| 0 <= i < self@.pages.len() implies (
            #[trigger] self@.pages[i]).len() == self.page_size by {
                if i < count && i != id {
                    assert(self@.pages[i] == before[i]);
                }
            }
            assert(self@ =~= SpaceView {
                pages: ledger::put_page(before, id as int, bytes, size as nat),
                ..old(self)@
            });
        }
    }

    /// Puts `count` pages of zeros behind the file; the first of them, or
    /// `None` where the file cannot grow so far.
    pub fn grow(&mut self, count: usize) -> (first: Option<u64>)
        requires
            old(self).wf(),
            count > 0,
        ensures
            final(self).wf(),
            final(self).on_file() == old(self).on_file(),
            noted(*final(self), *old(self)),
            match first {
                Some(id) => {
                    &&& ledger::can_grow(old(self)@, count as nat)
                    &&& id == old(self)@.pages.len()
                    &&& final(self)@ == (SpaceView {
                        pages: ledger::grown(
                            old(self)@.pages,
                            count as nat,
                            old(self)@.page_size,
                        ),
                        ..old(self)@
                    })
                    &&& final(self).pending() == old(self).pending() + zero_writes(
                        id as int,
                        count as nat,
                        old(self)@.page_size,
                    )
                },
                None => !ledger::can_grow(old(self)@, count as nat) && final(self)@ == old(self)@
                    && final(self).pending() == old(self).pending(),
            },
    {
        let ghost before = self@;
        let start: usize = self.pages.len();
        let size: usize = self.page_size as usize;
        let end: usize = match start.checked_add(count) {
            Some(end) => end,
            None => {
                return None;
            },
        };
        match (end as u64).checked_mul(self.page_size as u64) {
            Some(_) => {},
            None => {
                return None;
            },
        }
        let mut done: usize = 0;
        let ghost asked = self.pending();
        assert(asked =~= asked + zero_writes(start as int, 0, size as nat));
        assert(self@.pages =~= ledger::grown(before.pages, 0, size as nat));
        assert(self@ =~= SpaceView {
            pages: ledger::grown(before.pages, 0, size as nat),
            ..before
        });
        while done < count
            invariant
                done <= count,
                start + count == end,
                self.wf(),
                start == before.pages.len(),
                size == before.page_size,
                self.on_file() == old(self).on_file(),
                noted(*self, *old(self)),
                self.pending() == asked + zero_writes(start as int, done as nat, size as nat),
                self@ == (SpaceView {
                    pages: ledger::grown(before.pages, done as nat, size as nat),
                    ..before
                }),
            decreases count - done,
        {
            let page: Vec<u8> = zero_bytes(size);
            self.write(start + done, page);
            proof {
                assert(self.pending() =~= asked + zero_writes(
                    start as int,
                    (done + 1) as nat,
                    size as nat,
                ));
                assert(self@.pages =~= ledger::grown(before.pages, (done + 1) as nat, size as nat));
                assert(self@ =~= SpaceView {
                    pages: ledger::grown(before.pages, (done + 1) as nat, size as nat),
                    ..before
                });
            }
            done += 1;
        }
        Some(start as u64)
    }

    /// Zeroes a run of pages.
    fn zero_run(&mut self, start: u64, count: usize)
        requires
            old(self).wf(),
            start + count <= old(self)@.pages.len(),
        ensures
            final(self).wf(),
            final(self).on_file() == old(self).on_file(),
            noted(*final(self), *old(self)),
            final(self)@ == (SpaceView {
                pages: ledger::zeroed(
                    old(self)@.pages,
                    start as int,
                    count as nat,
                    old(self)@.page_size,
                ),
                ..old(self)@
            }),
            final(self).pending() == old(self).pending() + zero_writes(
                start as int,
                count as nat,
                old(self)@.page_size,
            ),
    {
        let ghost before = self@;
        let ghost asked = self.pending();
        let size: usize = self.page_size as usize;
        let total: usize = self.pages.len();
        let mut done: usize = 0;
        assert(asked =~= asked + zero_writes(start as int, 0, size as nat));
        assert(self@.pages =~= ledger::zeroed(before.pages, start as int, 0, size as nat));
        assert(self@ =~= SpaceView {
            pages: ledger::zeroed(before.pages, start as int, 0, size as nat),
            ..before
        });
        while done < count
            invariant
                done <= count,
                self.wf(),
                total == before.pages.len(),
                start + count <= total,
                size == before.page_size,
                self.on_file() == old(self).on_file(),
                noted(*self, *old(self)),
                self.pending() == asked + zero_writes(start as int, done as nat, size as nat),
                self@ == (SpaceView {
                    pages: ledger::zeroed(before.pages, start as int, done as nat, size as nat),
                    ..before
                }),
            decreases count - done,
        {
            let page: Vec<u8> = zero_bytes(size);
            self.write(start as usize + done, page);
            proof {
                assert(self.pending() =~= asked + zero_writes(
                    start as int,
                    (done + 1) as nat,
                    size as nat,
                ));
                assert(self@.pages =~= ledger::zeroed(
                    before.pages,
                    start as int,
                    (done + 1) as nat,
                    size as nat,
                ));
                assert(self@ =~= SpaceView {
                    pages: ledger::zeroed(
                        before.pages,
                        start as int,
                        (done + 1) as nat,
                        size as nat,
                    ),
                    ..before
                });
            }
            done += 1;
        }
    }

    /// Abandons the chain.
    fn degrade(&mut self)
        requires
            old(self).wf(),
        ensures
            final(self).wf(),
            final(self).on_file() == old(self).on_file(),
            noted(*final(self), *old(self)),
            final(self).pending() == old(self).pending(),
            final(self)@ == (SpaceView {
                free: ledger::abandoned(old(self)@.free),
                ..old(self)@
            }),
    {
        self.free.degrade();
        assert(self@ =~= SpaceView { free: ledger::abandoned(old(self)@.free), ..old(self)@ });
    }

    /// Whether a page may be handed out: no superblock page, and in the file.
    fn is_reusable(&self, id: u64) -> (yes: bool)
        ensures
            yes == ledger::reusable(self@.pages.len(), id),
    {
        id >= SUPERBLOCK_SLOTS && id < self.pages.len() as u64
    }

    /// Reads a ledger page. The read is noted where there is such a page.
    fn read_ledger(&mut self, id: u64) -> (result: DevonResult<LedgerPage>)
        requires
            old(self).wf(),
        ensures
            final(self).wf(),
            same_but_log(*final(self), *old(self)),
            final(self).log() == old(self).log() + reads_at(
                old(self).pending().len() as usize,
                ledger::read_of(old(self)@.pages, id),
            ),
            pages_read(final(self).log()) == pages_read(old(self).log()) + ledger::read_of(
                old(self)@.pages,
                id,
            ),
            match result {
                Ok(page) => ledger::ledger_at(old(self)@.pages, id) == Some(page@),
                Err(error) => {
                    &&& ledger::ledger_at(old(self)@.pages, id) is None
                    &&& error.kind_of() == if ledger::reusable(old(self)@.pages.len(), id) {
                        ErrorKind::Corrupt
                    } else {
                        ErrorKind::InvalidArgument
                    }
                },
            },
    {
        let ghost log = self.reads@;
        if id < SUPERBLOCK_SLOTS {
            assert(self.log() =~= log + reads_at(
                self.pending().len() as usize,
                ledger::read_of(self@.pages, id),
            ));
            assert(pages_read(self.log()) =~= pages_read(log) + Seq::empty());
            return Err(invalid_argument("pages 0 and 1 are reserved for superblocks"));
        }
        if id >= self.pages.len() as u64 {
            assert(self.log() =~= log + reads_at(
                self.pending().len() as usize,
                ledger::read_of(self@.pages, id),
            ));
            assert(pages_read(self.log()) =~= pages_read(log) + Seq::empty());
            return Err(invalid_argument("page is beyond the end of the database file"));
        }
        self.reads.push((self.actions.len(), id));
        proof {
            assert(self@ =~= old(self)@);
            assert(self.log() =~= log + reads_at(
                old(self).pending().len() as usize,
                ledger::read_of(old(self)@.pages, id),
            ));
            assert(pages_read(self.log()) =~= pages_read(log) + ledger::read_of(
                old(self)@.pages,
                id,
            ));
            assert(self@.pages[id as int] == self.pages@[id as int]@);
        }
        LedgerPage::decode(self.pages[id as usize].as_slice())
    }

    /// Hands over the ledger pages that were read since the last call.
    pub fn take_reads(&mut self) -> (reads: Vec<(usize, u64)>)
        requires
            old(self).wf(),
        ensures
            final(self).wf(),
            same_but_log(*final(self), *old(self)),
            reads@ == old(self).log(),
            final(self).log().len() == 0,
    {
        let mut reads: Vec<(usize, u64)> = Vec::new();
        std::mem::swap(&mut reads, &mut self.reads);
        assert(self@ =~= old(self)@);
        reads
    }

    /// Marks a free-page state to fall back to where what is pending now is not all done.
    fn mark(&mut self, free: FreeState)
        requires
            old(self).wf(),
            free.wf(),
        ensures
            final(self).wf(),
            final(self)@ == old(self)@,
            final(self).pending() == old(self).pending(),
            final(self).on_file() == old(self).on_file(),
            final(self).log() == old(self).log(),
            final(self).marks() == old(self).marks().push(
                (MarkView { at: old(self).pending().len(), free: free@ }),
            ),
    {
        let ghost shown = free@;
        self.marks.push(Mark { at: self.actions.len(), free });
        proof {
            assert(self@ =~= old(self)@);
            assert(self.marks() =~= old(self).marks().push(
                MarkView { at: old(self).pending().len(), free: shown },
            ));
        }
    }

    /// A ledger page's consumed count as the session sees it.
    fn effective_consumed(&self, id: u64, page: &LedgerPage) -> (consumed: u32)
        requires
            self.free.wf(),
        ensures
            consumed == ledger::effective(self.free@.consumed, id, page@),
    {
        match self.free.consumed_in_session.get(id) {
            Some(count) => if count > page.consumed_count {
                count
            } else {
                page.consumed_count
            },
            None => page.consumed_count,
        }
    }
}

/// A page of zeros.
pub fn zero_bytes(size: usize) -> (page: Vec<u8>)
    ensures
        page@ == ledger::zero_page(size as nat),
{
    let mut page: Vec<u8> = Vec::new();
    while page.len() < size
        invariant
            page@.len() <= size,
            forall|i: int| 0 <= i < page@.len() ==> #[trigger] page@[i] == 0,
        decreases size - page@.len(),
    {
        page.push(0);
    }
    assert(page@ =~= ledger::zero_page(size as nat));
    page
}

/// The lowest run of a list is the lowest run of its members.
proof fn lemma_lowest(list: Seq<u64>, count: nat, found: Option<u64>)
    requires
        match found {
            Some(start) => {
                &&& reuse::is_run(list, start, count)
                &&& forall|other: u64| #[trigger]
                    reuse::is_run(list, other, count) ==> start <= other
            },
            None => forall|start: u64| !#[trigger] reuse::is_run(list, start, count),
        },
    ensures
        ledger::lowest_run(members(list), count) == found,
{
    let set = members(list);
    assert forall|start: u64|
        #![trigger reuse::is_run(list, start, count)]
        #![trigger ledger::run_in(set, start, count)]
        reuse::is_run(list, start, count) <==> ledger::run_in(set, start, count) by {
        if reuse::is_run(list, start, count) {
            assert forall|k: int| 0 <= k < count implies set.contains(
                #[trigger] reuse::page_at(start, k),
            ) by {
                assert(list.contains(reuse::page_at(start, k)));
            }
        }
        if ledger::run_in(set, start, count) {
            assert forall|k: int| 0 <= k < count implies list.contains(
                #[trigger] reuse::page_at(start, k),
            ) by {
                assert(set.contains(reuse::page_at(start, k)));
            }
        }
    }
    match found {
        Some(start) => {
            assert(ledger::is_lowest_run(set, count, start));
            let other = choose|start: u64| ledger::is_lowest_run(set, count, start);
            assert(ledger::is_lowest_run(set, count, other));
        },
        None => {},
    }
}

/// A list has one earliest run.
proof fn lemma_earliest(ids: Seq<u64>, count: nat, found: Option<(u64, int)>)
    requires
        match found {
            Some((start, through)) => reuse::is_earliest_run(ids, count, start, through),
            None => forall|start: u64| !#[trigger] reuse::is_run(ids, start, count),
        },
    ensures
        ledger::earliest(ids, count) == found,
{
    match found {
        Some((start, through)) => {
            let pair = (start, through);
            assert(reuse::is_earliest_run(ids, count, pair.0, pair.1));
            assert(reuse::is_run(ids, start, count));
            let other = choose|found: (u64, int)| #[trigger]
                reuse::is_earliest_run(ids, count, found.0, found.1);
            assert(reuse::is_earliest_run(ids, count, other.0, other.1));
            assert(reuse::is_run(ids, other.0, count));
            assert(reuse::run_through(ids, other.0, count, other.1));
            assert(reuse::run_through(ids, start, count, through));
            assert(other == (start, through));
        },
        None => {},
    }
}

/// The bytes of a ledger page bound its entries.
proof fn lemma_entry_bound(pages: Seq<Seq<u8>>, id: u64, page_size: nat)
    requires
        ledger::ledger_at(pages, id) is Some,
        forall|i: int| 0 <= i < pages.len() ==> (#[trigger] pages[i]).len() == page_size,
        page_size <= 65536,
    ensures
        ledger::ledger_at(pages, id)->0.entries.len() <= free_pages::capacity_of(page_size),
        ledger::ledger_at(pages, id)->0.entries.len() <= 4096,
        ledger::ledger_at(pages, id)->0.consumed <= ledger::ledger_at(pages, id)->0.entries.len(),
{
    assert(pages[id as int].len() == page_size);
    crate::bytes::lemma_radix_values();
    crate::bytes::lemma_le_value_bound(pages[id as int].subrange(20, 24));
}

impl PageSpace {
    /// Adds the entries of a ledger page that may be consumed; how many.
    fn collect_eligible(
        &self,
        id: u64,
        page: &LedgerPage,
        from: usize,
        room: usize,
        entries: &mut Vec<ScannedReuseEntry>,
    ) -> (taken: usize)
        requires
            page.entries@.len() <= 4096,
        ensures
            final(entries)@ == old(entries)@ + ledger::eligible(
                id,
                page.entries@,
                from as int,
                self@.min_pin,
                room as nat,
            ),
            taken == ledger::eligible(
                id,
                page.entries@,
                from as int,
                self@.min_pin,
                room as nat,
            ).len(),
            taken <= room,
    {
        let ghost all = ledger::eligible(
            id,
            page.entries@,
            from as int,
            self@.min_pin,
            room as nat,
        );
        let ghost before = entries@;
        let mut taken: usize = 0;
        let ghost mut part: Seq<ScannedReuseEntry> = Seq::empty();
        assert(before + part =~= before);
        assert(part + all =~= all);
        while taken < room && from < page.entries.len() && taken < page.entries.len() - from
            && page.entries[from + taken].retired_lsn < self.min_pin
            invariant
                page.entries@.len() <= 4096,
                taken <= room,
                taken > 0 ==> from + taken <= page.entries@.len(),
                part.len() == taken,
                entries@ == before + part,
                all == part + ledger::eligible(
                    id,
                    page.entries@,
                    from + taken,
                    self@.min_pin,
                    (room - taken) as nat,
                ),
            decreases room - taken,
        {
            let entry: LedgerEntry = page.entries[from + taken];
            let scanned = ScannedReuseEntry {
                ledger_page: id,
                consumed_after: (from + taken + 1) as u32,
                entry,
            };
            let ghost rest = ledger::eligible(
                id,
                page.entries@,
                from + taken + 1,
                self@.min_pin,
                (room - taken - 1) as nat,
            );
            proof {
                assert(ledger::eligible(
                    id,
                    page.entries@,
                    from + taken,
                    self@.min_pin,
                    (room - taken) as nat,
                ) == seq![scanned] + rest);
                assert(all =~= part.push(scanned) + rest);
                assert(before + part.push(scanned) =~= entries@.push(scanned));
                part = part.push(scanned);
            }
            entries.push(scanned);
            taken += 1;
        }
        proof {
            assert(ledger::eligible(
                id,
                page.entries@,
                from + taken,
                self@.min_pin,
                (room - taken) as nat,
            ).len() == 0);
            assert(all =~= part);
        }
        taken
    }

    /// Walks the ledger for a run of `count` pages; `None` where the chain
    /// is broken.
    fn scan_reclaimable_run(
        &mut self,
        extension: SuperblockExtension,
        count: usize,
        skip_capacity: usize,
    ) -> (found: Option<Scan>)
        requires
            old(self).wf(),
            count > 0,
        ensures
            final(self).wf(),
            same_but_log(*final(self), *old(self)),
            final(self).log() == old(self).log() + reads_at(
                old(self).pending().len() as usize,
                ledger::scan_reads(
                    old(self)@.pages,
                    old(self)@.free.consumed,
                    extension.retire_ledger_tail,
                    old(self)@.min_pin,
                    count as nat,
                    extension.retire_ledger_head,
                    Seq::empty(),
                    Seq::empty(),
                ),
            ),
            ({
                let spec = ledger::scan_from(
                    old(self)@.pages,
                    old(self)@.free.consumed,
                    extension.retire_ledger_tail,
                    old(self)@.min_pin,
                    count as nat,
                    skip_capacity as nat,
                    extension.retire_ledger_head,
                    Seq::empty(),
                    Seq::empty(),
                );
                match found {
                    Some(scan) => spec == Some(scan@) && (scan.run is Some ==> reuse::is_run(
                        reuse::scanned_ids(scan.entries@),
                        scan.run->0,
                        count as nat,
                    )),
                    None => spec is None,
                }
            }),
    {
        let ghost spec = ledger::scan_from(
            self@.pages,
            self@.free.consumed,
            extension.retire_ledger_tail,
            self@.min_pin,
            count as nat,
            skip_capacity as nat,
            extension.retire_ledger_head,
            Seq::empty(),
            Seq::empty(),
        );
        let ghost begin = self@;
        let ghost log = self.log();
        let ghost place = self.pending().len() as usize;
        let ghost reads = ledger::scan_reads(
            begin.pages,
            begin.free.consumed,
            extension.retire_ledger_tail,
            begin.min_pin,
            count as nat,
            extension.retire_ledger_head,
            Seq::empty(),
            Seq::empty(),
        );
        let ghost mut done: Seq<u64> = Seq::empty();
        assert(log =~= log + reads_at(place, done));
        let mut entries: Vec<ScannedReuseEntry> = Vec::new();
        let mut visited: Vec<u64> = Vec::new();
        let mut cursor: u64 = extension.retire_ledger_head;
        assert(entries@ =~= Seq::<ScannedReuseEntry>::empty());
        assert(visited@ =~= Seq::<u64>::empty());
        assert(reads =~= done + reads);
        loop
            invariant
                self.wf(),
                same_but_log(*self, *old(self)),
                begin == old(self)@,
                log == old(self).log(),
                place == old(self).pending().len() as usize,
                self.log() == log + reads_at(place, done),
                reads == ledger::scan_reads(
                    begin.pages,
                    begin.free.consumed,
                    extension.retire_ledger_tail,
                    begin.min_pin,
                    count as nat,
                    extension.retire_ledger_head,
                    Seq::empty(),
                    Seq::empty(),
                ),
                reads == done + ledger::scan_reads(
                    begin.pages,
                    begin.free.consumed,
                    extension.retire_ledger_tail,
                    begin.min_pin,
                    count as nat,
                    cursor,
                    visited@,
                    entries@,
                ),
                count > 0,
                spec == ledger::scan_from(
                    self@.pages,
                    self@.free.consumed,
                    extension.retire_ledger_tail,
                    self@.min_pin,
                    count as nat,
                    skip_capacity as nat,
                    extension.retire_ledger_head,
                    Seq::empty(),
                    Seq::empty(),
                ),
                spec == ledger::scan_from(
                    self@.pages,
                    self@.free.consumed,
                    extension.retire_ledger_tail,
                    self@.min_pin,
                    count as nat,
                    skip_capacity as nat,
                    cursor,
                    visited@,
                    entries@,
                ),
                visited@.len() <= self@.pages.len(),
                entries@.len() <= count + RUN_SCAN_SKIP_LIMIT,
            decreases self@.pages.len() - visited@.len(),
        {
            proof {
                self.lemma_wf();
            }
            if listed_in(&visited, cursor) || visited.len() >= self.pages.len() {
                assert(reads =~= done);
                return None;
            }
            let ghost so_far = self.log();
            let ghost known = entries@;
            let ghost walked = visited@;
            let page: LedgerPage = match self.read_ledger(cursor) {
                Ok(page) => page,
                Err(_) => {
                    assert(self.log() =~= log + reads_at(
                        place,
                        done + ledger::read_of(begin.pages, cursor),
                    ));
                    return None;
                },
            };
            proof {
                assert(self.log() =~= log + reads_at(place, done.push(cursor)));
                assert(ledger::scan_reads(
                    begin.pages,
                    begin.free.consumed,
                    extension.retire_ledger_tail,
                    begin.min_pin,
                    count as nat,
                    cursor,
                    walked,
                    known,
                ).len() > 0);
            }
            proof {
                lemma_entry_bound(self@.pages, cursor, self@.page_size);
            }
            let from: usize = self.effective_consumed(cursor, &page) as usize;
            let held: usize = entries.len();
            let room: usize = if held >= count {
                let skipped: usize = held - count;
                if skipped < RUN_SCAN_SKIP_LIMIT {
                    RUN_SCAN_SKIP_LIMIT - skipped
                } else {
                    0
                }
            } else {
                let lacking: usize = count - held;
                lacking.saturating_add(RUN_SCAN_SKIP_LIMIT)
            };
            let ghost before = entries@;
            let ghost exact: nat = (count + RUN_SCAN_SKIP_LIMIT - held) as nat;
            proof {
                if room < exact {
                    lemma_eligible_room(
                        cursor,
                        page.entries@,
                        from as int,
                        self@.min_pin,
                        room as nat,
                        exact,
                    );
                }
            }
            let taken: usize = self.collect_eligible(cursor, &page, from, room, &mut entries);
            proof {
                lemma_eligible_len(
                    cursor,
                    page.entries@,
                    from as int,
                    self@.min_pin,
                    exact,
                );
            }
            visited.push(cursor);
            if entries.len() >= count {
                let ghost ids = reuse::scanned_ids(entries@);
                match earliest_run(&entries, count) {
                    Some((start, through)) => {
                        proof {
                            lemma_earliest(ids, count as nat, Some((start, through as int)));
                            lemma_run_prefix(ids, start, count as nat, through as int);
                        }
                        let ghost whole = entries@;
                        entries.truncate(through + 1);
                        assert(reuse::scanned_ids(entries@) =~= ids.subrange(0, through + 1));
                        let scan = Scan { entries, visited, run: Some(start) };
                        assert(scan@ =~= spec->0);
                        assert(reads =~= done.push(cursor));
                        return Some(scan);
                    },
                    None => {
                        proof {
                            lemma_earliest(ids, count as nat, None);
                        }
                    },
                }
            }
            let exhausted: bool = from < page.entries.len() && taken < page.entries.len() - from;
            if exhausted || cursor == extension.retire_ledger_tail || page.next_page == 0 {
                if skip_capacity < entries.len() {
                    entries.truncate(skip_capacity);
                }
                let scan = Scan { entries, visited, run: None };
                assert(scan@ =~= spec->0);
                assert(reads =~= done.push(cursor));
                return Some(scan);
            }
            proof {
                assert(reads =~= done.push(cursor) + ledger::scan_reads(
                    begin.pages,
                    begin.free.consumed,
                    extension.retire_ledger_tail,
                    begin.min_pin,
                    count as nat,
                    page.next_page,
                    visited@,
                    entries@,
                ));
                done = done.push(cursor);
            }
            cursor = page.next_page;
        }
    }
}

/// Room beyond the entries of a page makes no difference.
proof fn lemma_eligible_room(
    page: u64,
    entries: Seq<LedgerEntry>,
    from: int,
    min_pin: nat,
    a: nat,
    b: nat,
)
    requires
        entries.len() - from <= a,
        a <= b,
        0 <= from,
    ensures
        ledger::eligible(page, entries, from, min_pin, a) == ledger::eligible(
            page,
            entries,
            from,
            min_pin,
            b,
        ),
    decreases entries.len() - from,
{
    if from < entries.len() && entries[from].retired_lsn < min_pin {
        lemma_eligible_room(page, entries, from + 1, min_pin, (a - 1) as nat, (b - 1) as nat);
    }
}

proof fn lemma_eligible_len(
    page: u64,
    entries: Seq<LedgerEntry>,
    from: int,
    min_pin: nat,
    room: nat,
)
    ensures
        ledger::eligible(page, entries, from, min_pin, room).len() <= room,
        0 <= from <= entries.len() ==> ledger::eligible(page, entries, from, min_pin, room).len()
            <= entries.len() - from,
        from > entries.len() ==> ledger::eligible(page, entries, from, min_pin, room).len() == 0,
    decreases entries.len() - from,
{
    if 0 <= from < entries.len() && entries[from].retired_lsn < min_pin && room > 0 {
        lemma_eligible_len(page, entries, from + 1, min_pin, (room - 1) as nat);
    }
}

/// A run lies before the position at which it ends.
proof fn lemma_run_prefix(ids: Seq<u64>, start: u64, count: nat, through: int)
    requires
        reuse::is_earliest_run(ids, count, start, through),
    ensures
        0 <= through < ids.len(),
        reuse::is_run(ids.subrange(0, through + 1), start, count),
{
    let k = choose|k: int|
        0 <= k < count && reuse::first_at(ids, #[trigger] reuse::page_at(start, k), through);
    let part = ids.subrange(0, through + 1);
    assert forall|k: int| 0 <= k < count implies part.contains(
        #[trigger] reuse::page_at(start, k),
    ) by {
        assert(ids.contains(reuse::page_at(start, k)));
        let at = reuse::lemma_first_exists(ids, reuse::page_at(start, k));
        assert(reuse::first_at(ids, reuse::page_at(start, k), at));
        assert(part[at] == reuse::page_at(start, k));
    }
}

impl PageSpace {
    /// Takes the pages of a run out of the deferred list.
    fn forget_deferred_run(&mut self, start: u64, count: usize)
        requires
            old(self).wf(),
            start + count <= u64::MAX,
        ensures
            final(self).wf(),
            final(self).on_file() == old(self).on_file(),
            noted(*final(self), *old(self)),
            final(self).pending() == old(self).pending(),
            final(self)@ == (SpaceView {
                free: FreeView {
                    deferred: old(self)@.free.deferred.difference(
                        ledger::run_set(start, count as nat),
                    ),
                    ..old(self)@.free
                },
                ..old(self)@
            }),
    {
        let ghost before = self@;
        let mut done: usize = 0;
        assert(self@ =~= SpaceView {
            free: FreeView {
                deferred: before.free.deferred.difference(ledger::run_set(start, 0)),
                ..before.free
            },
            ..before
        });
        while done < count
            invariant
                done <= count,
                start + count <= u64::MAX,
                self.wf(),
                self.on_file() == old(self).on_file(),
                noted(*self, *old(self)),
                self.pending() == old(self).pending(),
                self@ == (SpaceView {
                    free: FreeView {
                        deferred: before.free.deferred.difference(
                            ledger::run_set(start, done as nat),
                        ),
                        ..before.free
                    },
                    ..before
                }),
            decreases count - done,
        {
            let ghost held = self.free.deferred_reuse@;
            let ghost middle = self@;
            let id: u64 = start + done as u64;
            sorted::remove(&mut self.free.deferred_reuse, id);
            proof {
                assert(members(self.free.deferred_reuse@) =~= before.free.deferred.difference(
                    ledger::run_set(start, (done + 1) as nat),
                )) by {
                    assert forall|x: u64|
                        #![trigger self.free.deferred_reuse@.contains(x)]
                        self.free.deferred_reuse@.contains(x) <==> before.free.deferred.contains(x)
                            && !ledger::run_set(start, (done + 1) as nat).contains(x) by {
                        assert(held.contains(x) <==> middle.free.deferred.contains(x));
                    }
                }
                assert(self@ =~= SpaceView {
                    free: FreeView {
                        deferred: before.free.deferred.difference(
                            ledger::run_set(start, (done + 1) as nat),
                        ),
                        ..before.free
                    },
                    ..before
                });
            }
            done += 1;
        }
    }

    /// Counts pages that were handed out again.
    fn count_reused(&mut self, count: usize)
        requires
            old(self).wf(),
        ensures
            final(self).wf(),
            final(self).on_file() == old(self).on_file(),
            noted(*final(self), *old(self)),
            final(self).pending() == old(self).pending(),
            final(self)@ == (SpaceView {
                free: FreeView {
                    reused: saturating::capped(old(self)@.free.reused + count as nat),
                    ..old(self)@.free
                },
                ..old(self)@
            }),
    {
        self.free.reused_in_session = plus(self.free.reused_in_session, count as u64);
        assert(self@ =~= SpaceView {
            free: FreeView {
                reused: saturating::capped(old(self)@.free.reused + count as nat),
                ..old(self)@.free
            },
            ..old(self)@
        });
    }

    /// Serves a run from the deferred pages.
    fn serve_deferred(&mut self, count: usize) -> (first: Option<u64>)
        requires
            old(self).wf(),
            count > 0,
        ensures
            final(self).wf(),
            final(self).on_file() == old(self).on_file(),
            noted(*final(self), *old(self)),
            final(self).pending() == old(self).pending() + served_writes(
                first,
                count as nat,
                old(self)@.page_size,
            ),
            (first, final(self)@) == ledger::deferred_reuse(old(self)@, count as nat),
    {
        let ghost before = self@;
        let run: Vec<u64> = match find_contiguous_run(&self.free.deferred_reuse, count) {
            Some(run) => run,
            None => {
                proof {
                    lemma_lowest(self.free.deferred_reuse@, count as nat, None);
                }
                return None;
            },
        };
        let start: u64 = run[0];
        proof {
            lemma_lowest(self.free.deferred_reuse@, count as nat, Some(start));
            assert(run@[count - 1] == start + (count - 1));
        }
        if start < SUPERBLOCK_SLOTS || run[count - 1] >= self.pages.len() as u64 {
            self.degrade();
            return None;
        }
        self.zero_run(start, count);
        self.forget_deferred_run(start, count);
        self.count_reused(count);
        assert(self@ =~= ledger::deferred_reuse(before, count as nat).1);
        Some(start)
    }

    /// Whether an entry of the scan cannot be trusted.
    fn scan_is_untrusted(&self, scan: &Scan) -> (wrong: bool)
        ensures
            wrong == ledger::scan_untrusted(self@.pages.len(), scan@),
    {
        let mut i: usize = 0;
        while i < scan.entries.len()
            invariant
                i <= scan.entries@.len(),
                forall|j: int|
                    0 <= j < i ==> !ledger::offers_wrong(self@.pages.len(), scan@, j),
            decreases scan.entries@.len() - i,
        {
            let id: u64 = scan.entries[i].entry.page_id;
            if listed_in(&scan.visited, id) || !self.is_reusable(id) {
                assert(ledger::offers_wrong(self@.pages.len(), scan@, i as int));
                return true;
            }
            i += 1;
        }
        false
    }

    /// Consumes scanned entries: those outside the run become deferred.
    fn consume_entries(&mut self, entries: &Vec<ScannedReuseEntry>, from: u64, count: usize)
        requires
            old(self).wf(),
        ensures
            final(self).wf(),
            final(self).on_file() == old(self).on_file(),
            noted(*final(self), *old(self)),
            final(self).pending() == old(self).pending(),
            final(self)@ == (SpaceView {
                free: FreeView {
                    consumed: ledger::consumed_through(old(self)@.free.consumed, entries@),
                    deferred: old(self)@.free.deferred.union(
                        ledger::listed(entries@).difference(
                            ledger::run_set(from, count as nat),
                        ),
                    ),
                    ..old(self)@.free
                },
                ..old(self)@
            }),
    {
        let ghost before = self@;
        let mut i: usize = 0;
        proof {
            let none = entries@.subrange(0, 0);
            assert(none =~= Seq::<ScannedReuseEntry>::empty());
            assert(before.free.deferred.union(
                ledger::listed(none).difference(ledger::run_set(from, count as nat)),
            ) =~= before.free.deferred);
            assert(self@ =~= SpaceView {
                free: FreeView {
                    consumed: ledger::consumed_through(before.free.consumed, none),
                    deferred: before.free.deferred.union(
                        ledger::listed(none).difference(ledger::run_set(from, count as nat)),
                    ),
                    ..before.free
                },
                ..before
            });
        }
        while i < entries.len()
            invariant
                i <= entries@.len(),
                self.wf(),
                self.on_file() == old(self).on_file(),
                noted(*self, *old(self)),
                self.pending() == old(self).pending(),
                self@ == (SpaceView {
                    free: FreeView {
                        consumed: ledger::consumed_through(
                            before.free.consumed,
                            entries@.subrange(0, i as int),
                        ),
                        deferred: before.free.deferred.union(
                            ledger::listed(entries@.subrange(0, i as int)).difference(
                                ledger::run_set(from, count as nat),
                            ),
                        ),
                        ..before.free
                    },
                    ..before
                }),
            decreases entries@.len() - i,
        {
            let ghost part = entries@.subrange(0, i as int);
            let ghost next = entries@.subrange(0, i + 1);
            let ghost held = self.free.deferred_reuse@;
            let ghost middle = self@;
            let scanned: ScannedReuseEntry = entries[i];
            let id: u64 = scanned.entry.page_id;
            self.free.consumed_in_session.raise(scanned.ledger_page, scanned.consumed_after);
            let in_run: bool = id >= from && id - from < count as u64;
            if !in_run {
                sorted::insert(&mut self.free.deferred_reuse, id);
            }
            proof {
                assert(next.drop_last() =~= part);
                let run = ledger::run_set(from, count as nat);
                let want = before.free.deferred.union(ledger::listed(next).difference(run));
                lemma_listed_push(part, scanned);
                assert(next =~= part.push(scanned));
                assert forall|x: u64|
                    #![trigger self.free.deferred_reuse@.contains(x)]
                    self.free.deferred_reuse@.contains(x) <==> want.contains(x) by {
                    assert(held.contains(x) <==> middle.free.deferred.contains(x));
                    assert(ledger::listed(next).contains(x) <==> ledger::listed(part).contains(x)
                        || x == id);
                    assert(run.contains(id) <==> in_run);
                }
                assert(members(self.free.deferred_reuse@) =~= want);
                assert(self@ =~= SpaceView {
                    free: FreeView {
                        consumed: ledger::consumed_through(before.free.consumed, next),
                        deferred: want,
                        ..before.free
                    },
                    ..before
                });
            }
            i += 1;
        }
        assert(entries@.subrange(0, entries@.len() as int) =~= entries@);
    }

    /// Consumes what a scan found.
    fn stage_scan(&mut self, scan: &Scan, count: usize) -> (first: Option<u64>)
        requires
            old(self).wf(),
            count > 0,
            scan.run is Some ==> reuse::is_run(
                reuse::scanned_ids(scan.entries@),
                scan.run->0,
                count as nat,
            ),
        ensures
            final(self).wf(),
            final(self).on_file() == old(self).on_file(),
            noted(*final(self), *old(self)),
            final(self).pending() == old(self).pending() + served_writes(
                first,
                count as nat,
                old(self)@.page_size,
            ),
            (first, final(self)@) == ledger::staged(old(self)@, scan@, count as nat),
    {
        let ghost before = self@;
        if self.scan_is_untrusted(scan) {
            self.degrade();
            return None;
        }
        match scan.run {
            Some(start) => {
                proof {
                    let ids = reuse::scanned_ids(scan.entries@);
                    let low = reuse::page_at(start, 0);
                    assert(ids.contains(low));
                    let i = choose|i: int| 0 <= i < ids.len() && ids[i] == low;
                    assert(!ledger::offers_wrong(self@.pages.len(), scan@, i));
                    let high = reuse::page_at(start, count - 1);
                    assert(ids.contains(high));
                    let j = choose|j: int| 0 <= j < ids.len() && ids[j] == high;
                    assert(!ledger::offers_wrong(self@.pages.len(), scan@, j));
                    assert(high == start + count - 1);
                }
                self.zero_run(start, count);
                self.consume_entries(&scan.entries, start, count);
                self.count_reused(count);
                assert(self@ =~= ledger::staged(before, scan@, count as nat).1);
                Some(start)
            },
            None => {
                self.consume_entries(&scan.entries, 0, 0);
                proof {
                    assert(ledger::listed(scan.entries@).difference(ledger::run_set(0, 0))
                        =~= ledger::listed(scan.entries@));
                    assert(self@ =~= ledger::staged(before, scan@, count as nat).1);
                }
                None
            },
        }
    }

    /// Serves a run from free pages.
    fn try_reuse_run(&mut self, count: usize) -> (first: Option<u64>)
        requires
            old(self).wf(),
            count > 0,
        ensures
            final(self).wf(),
            final(self).on_file() == old(self).on_file(),
            final(self).marks() == old(self).marks(),
            final(self).log() == old(self).log() + reads_at(
                old(self).pending().len() as usize,
                ledger::reuse_reads(old(self)@, count as nat),
            ),
            final(self).pending() == old(self).pending() + served_writes(
                first,
                count as nat,
                old(self)@.page_size,
            ),
            (first, final(self)@) == ledger::reuse_run(old(self)@, count as nat),
    {
        let ghost log = self.log();
        let ghost place = self.pending().len() as usize;
        assert(log =~= log + reads_at(place, Seq::empty()));
        if let Some(first) = self.serve_deferred(count) {
            return Some(first);
        }
        if self.min_pin == 0 {
            return None;
        }
        let extension: SuperblockExtension = match self.free.extension {
            Some(extension) => extension,
            None => {
                return None;
            },
        };
        if !extension.has_ledger() {
            return None;
        }
        let capacity: usize = LedgerPage::capacity(self.page_size as usize);
        let held: usize = self.free.deferred_reuse.len();
        proof {
            ledger::lemma_list_of(
                self.free.deferred_reuse@,
                members(self.free.deferred_reuse@),
            );
        }
        let skip: usize = if held < capacity {
            capacity - held
        } else {
            0
        };
        match self.scan_reclaimable_run(extension, count, skip) {
            Some(scan) => self.stage_scan(&scan, count),
            None => {
                self.degrade();
                None
            },
        }
    }

    /// Allocates `count` zeroed neighbouring pages: free pages first, else
    /// the end of the file.
    pub fn allocate_run(&mut self, count: usize) -> (result: DevonResult<u64>)
        requires
            old(self).wf(),
        ensures
            final(self).wf(),
            final(self).on_file() == old(self).on_file(),
            final(self).log() == old(self).log() + reads_at(
                old(self).pending().len() as usize,
                ledger::allocation_reads(old(self)@, count as nat),
            ),
            final(self).marks() == old(self).marks() + if count > 0 && ledger::reuse_run(
                old(self)@,
                count as nat,
            ).0 is Some {
                seq![MarkView { at: final(self).pending().len(), free: old(self)@.free }]
            } else {
                Seq::empty()
            },
            final(self).pending() == old(self).pending() + served_writes(
                result.ok(),
                count as nat,
                old(self)@.page_size,
            ),
            count == 0 ==> result is Err && final(self)@ == old(self)@,
            count > 0 ==> final(self)@ == ledger::allocate(old(self)@, count as nat).1,
            match result {
                Ok(first) => ledger::allocate(old(self)@, count as nat).0 == Some(first),
                Err(error) => {
                    &&& count > 0 ==> ledger::allocate(old(self)@, count as nat).0 is None
                    &&& error.kind_of() == ErrorKind::InvalidArgument
                },
            },
    {
        let ghost log = self.log();
        let ghost marks = self.marks();
        assert(marks =~= marks + Seq::empty());
        if count == 0 {
            assert(log =~= log + reads_at(self.pending().len() as usize, Seq::empty()));
            return Err(invalid_argument("cannot allocate a run of zero pages"));
        }
        let free: FreeState = self.free.duplicate();
        if let Some(first) = self.try_reuse_run(count) {
            self.mark(free);
            assert(self.marks() =~= marks + seq![
                MarkView { at: self.pending().len(), free: old(self)@.free },
            ]);
            return Ok(first);
        }
        match self.grow(count) {
            Some(first) => Ok(first),
            None => Err(invalid_argument("page run end overflows u64")),
        }
    }

    /// Writes every consumed count of the session into its ledger page, and
    /// asks for a flush where there was any.
    fn flush_consumed(&mut self)
        requires
            old(self).wf(),
        ensures
            final(self).wf(),
            final(self).on_file() == old(self).on_file(),
            final(self).marks() == old(self).marks() + count_mark(
                old(self)@,
                (final(self).pending().len() - 1) as nat,
            ),
            pages_read(final(self).log()) == pages_read(old(self).log()) + ledger::flush_reads(
                old(self)@,
            ),
            final(self)@ == ledger::flushed(old(self)@),
            extends(old(self).pending(), final(self).pending()),
            makes_counts_durable(old(self)@, added(old(self).pending(), final(self).pending())),
            spares_slots(added(old(self).pending(), final(self).pending())),
    {
        let ghost asked = self.pending();
        assert(asked.subrange(0, asked.len() as int) =~= asked);
        let ghost before = self@;
        let ghost counts = self.free.consumed_in_session@;
        let ghost log = self.log();
        let ghost marks = self.marks();
        assert(marks =~= marks + Seq::empty());
        if self.free.consumed_in_session.keys.len() == 0 {
            proof {
                assert(counts =~= Map::<u64, u32>::empty());
                let after = ledger::flushed(before);
                assert(after.pages =~= before.pages);
                assert(after =~= before);
                assert(added(asked, asked) =~= Seq::empty());
                assert(ledger::lists(Seq::empty(), counts.dom()));
                ledger::lemma_list_of(Seq::empty(), counts.dom());
                assert(pages_read(log) =~= pages_read(log) + Seq::empty());
            }
            return;
        }
        assert(counts.dom().contains(self.free.consumed_in_session.keys@[0]));
        assert(counts != Map::<u64, u32>::empty());
        let free: FreeState = self.free.duplicate();
        let mut taken: ConsumedCounts = ConsumedCounts::new();
        std::mem::swap(&mut taken, &mut self.free.consumed_in_session);
        let ghost list = taken.keys@;
        let mut i: usize = 0;
        assert(list.subrange(0, 0) =~= Seq::empty());
        assert(pages_read(log) =~= pages_read(log) + Seq::empty());
        proof {
            self.lemma_wf();
            assert(self@.pages =~= partly_flushed(before, list, 0));
            assert(self@ =~= SpaceView {
                pages: partly_flushed(before, list, 0),
                free: FreeView { consumed: Map::empty(), ..before.free },
                ..before
            });
        }
        while i < taken.keys.len()
            invariant
                i <= taken.keys@.len(),
                self.wf(),
                self.on_file() == old(self).on_file(),
                self.marks() == old(self).marks(),
                log == old(self).log(),
                pages_read(self.log()) == pages_read(log) + ledger::readable(
                    before.pages,
                    list.subrange(0, i as int),
                ),
                asked == old(self).pending(),
                extends(asked, self.pending()),
                forall|k: int|
                    asked.len() <= k < self.pending().len() ==> is_rewrite(
                        before,
                        #[trigger] self.pending()[k],
                    ),
                taken.wf(),
                list == taken.keys@,
                counts == taken@,
                before.free.consumed == counts,
                old(self)@ == before,
                before.page_size <= 65536,
                self@ == (SpaceView {
                    pages: partly_flushed(before, list, i as int),
                    free: FreeView { consumed: Map::empty(), ..before.free },
                    ..before
                }),
            decreases taken.keys@.len() - i,
        {
            let ghost middle = self@;
            let ghost so_far = self.pending();
            let id: u64 = taken.keys[i];
            let count: u32 = taken.counts[i];
            proof {
                self.lemma_wf();
                lemma_index(list, id, i as int);
                assert(counts[id] == count);
                lemma_not_before(list, i as int);
            }
            let ghost noted_before = self.log();
            let page: DevonResult<LedgerPage> = self.read_ledger(id);
            proof {
                let part = list.subrange(0, i + 1);
                assert(part.drop_last() =~= list.subrange(0, i as int));
                assert(pages_read(self.log()) =~= pages_read(log) + ledger::readable(
                    before.pages,
                    part,
                ));
            }
            if let Ok(mut page) = page {
                proof {
                    lemma_entry_bound(self@.pages, id, self@.page_size);
                    assert(self@.pages[id as int] == before.pages[id as int]);
                }
                if count > page.consumed_count && count as u64 <= page.entries.len() as u64 {
                    let ghost shown = page@;
                    page.consumed_count = count;
                    assert(page@ =~= LedgerView { consumed: count, ..shown });
                    match page.encode(self.page_size as usize) {
                        Ok(bytes) => {
                            let total: usize = self.page_count();
                            assert(id < total);
                            self.write(id as usize, bytes);
                            proof {
                                assert(self.pending().subrange(0, asked.len() as int)
                                    =~= so_far.subrange(0, asked.len() as int));
                                assert(is_rewrite(before, self.pending().last()));
                            }
                        },
                        Err(_) => {},
                    }
                }
            }
            proof {
                assert forall|k: int| 0 <= k < before.pages.len() implies self@.pages[k]
                    == partly_flushed(before, list, i + 1)[k] by {
                    lemma_key_step(list, i as int, k);
                    if k == id {
                        assert(middle.pages[k] == before.pages[k]);
                    } else {
                        assert(self@.pages[k] == middle.pages[k]);
                    }
                }
                assert(self@.pages =~= partly_flushed(before, list, i + 1));
                assert(self@ =~= SpaceView {
                    pages: partly_flushed(before, list, i + 1),
                    free: FreeView { consumed: Map::empty(), ..before.free },
                    ..before
                });
            }
            i += 1;
        }
        proof {
            assert(list.subrange(0, list.len() as int) =~= list);
            assert(self@.pages =~= ledger::flushed(before).pages);
            assert(self@ =~= ledger::flushed(before));
        }
        let ghost rewritten = self.pending();
        self.mark(free);
        self.sync();
        proof {
            assert(ledger::lists(list, counts.dom()));
            ledger::lemma_list_of(list, counts.dom());
            assert(self.marks() =~= marks + count_mark(
                before,
                (self.pending().len() - 1) as nat,
            ));
            let more = added(asked, self.pending());
            assert(self.pending().subrange(0, asked.len() as int) =~= rewritten.subrange(
                0,
                asked.len() as int,
            ));
            assert(more.last() == self.pending().last());
            assert forall|k: int| 0 <= k < more.len() - 1 implies is_rewrite(
                before,
                #[trigger] more[k],
            ) by {
                assert(more[k] == rewritten[asked.len() + k]);
            }
        }
    }
}

/// The pages once the ledger pages of the first `count` keys are flushed.
spec fn partly_flushed(space: SpaceView, keys: Seq<u64>, count: int) -> Seq<Seq<u8>> {
    Seq::new(
        space.pages.len(),
        |i: int|
            if i <= u64::MAX && keys.subrange(0, count).contains(i as u64) {
                ledger::flushed_page(space.pages[i], i, space.free.consumed, space.page_size)
            } else {
                space.pages[i]
            },
    )
}

proof fn lemma_not_before(list: Seq<u64>, i: int)
    requires
        sorted::ascending(list),
        0 <= i < list.len(),
    ensures
        !list.subrange(0, i).contains(list[i]),
{
    if list.subrange(0, i).contains(list[i]) {
        let j = choose|j: int| 0 <= j < i && list.subrange(0, i)[j] == list[i];
        assert(list[j] < list[i]);
    }
}

proof fn lemma_key_step(list: Seq<u64>, i: int, k: int)
    requires
        0 <= i < list.len(),
        0 <= k,
    ensures
        k <= u64::MAX ==> (list.subrange(0, i + 1).contains(k as u64) <==> list.subrange(
            0,
            i,
        ).contains(k as u64) || list[i] == k),
{
    let part = list.subrange(0, i);
    let next = list.subrange(0, i + 1);
    assert(next =~= part.push(list[i]));
    if k <= u64::MAX {
        let key = k as u64;
        if next.contains(key) {
            let j = choose|j: int| 0 <= j < next.len() && next[j] == key;
            if j < i {
                assert(part[j] == key);
            }
        }
        if part.contains(key) {
            let j = choose|j: int| 0 <= j < part.len() && part[j] == key;
            assert(next[j] == key);
        }
        if list[i] == key {
            assert(next[i] == key);
        }
    }
}

proof fn lemma_listed_push(part: Seq<ScannedReuseEntry>, scanned: ScannedReuseEntry)
    ensures
        forall|x: u64| #[trigger]
            ledger::listed(part.push(scanned)).contains(x) <==> ledger::listed(part).contains(x)
                || x == scanned.entry.page_id,
{
    let next = part.push(scanned);
    let ids = reuse::scanned_ids(part);
    let more = reuse::scanned_ids(next);
    assert(more =~= ids.push(scanned.entry.page_id));
    assert forall|x: u64| #[trigger] ledger::listed(next).contains(x) <==> ledger::listed(
        part,
    ).contains(x) || x == scanned.entry.page_id by {
        if more.contains(x) {
            let j = choose|j: int| 0 <= j < more.len() && more[j] == x;
            if j < ids.len() {
                assert(ids[j] == x);
            }
        }
        if ids.contains(x) {
            let j = choose|j: int| 0 <= j < ids.len() && ids[j] == x;
            assert(more[j] == x);
        }
        if x == scanned.entry.page_id {
            assert(more[ids.len() as int] == x);
        }
    }
}

/// What is left of the chain once its fully consumed pages are unlinked.
#[derive(Debug)]
struct Chain {
    unlinked: Vec<u64>,
    head: u64,
    tail: u64,
}

impl View for Chain {
    type V = ChainView;

    closed spec fn view(&self) -> ChainView {
        ChainView { unlinked: self.unlinked@, head: self.head, tail: self.tail }
    }
}

impl PageSpace {
    /// Walks the ledger for a compaction; `None` where the chain is broken.
    fn scan_for_compaction(&mut self, extension: SuperblockExtension) -> (found: Option<Scan>)
        requires
            old(self).wf(),
        ensures
            final(self).wf(),
            same_but_log(*final(self), *old(self)),
            pages_read(final(self).log()) == pages_read(old(self).log())
                + ledger::compaction_reads(
                old(self)@.pages,
                old(self)@.free.consumed,
                extension.retire_ledger_tail,
                old(self)@.min_pin,
                extension.retire_ledger_head,
                Seq::empty(),
                Seq::empty(),
            ),
            ({
                let spec = ledger::compaction_scan(
                    old(self)@.pages,
                    old(self)@.free.consumed,
                    extension.retire_ledger_tail,
                    old(self)@.min_pin,
                    extension.retire_ledger_head,
                    Seq::empty(),
                    Seq::empty(),
                );
                match found {
                    Some(scan) => spec == Some(scan@),
                    None => spec is None,
                }
            }),
    {
        let ghost spec = ledger::compaction_scan(
            self@.pages,
            self@.free.consumed,
            extension.retire_ledger_tail,
            self@.min_pin,
            extension.retire_ledger_head,
            Seq::empty(),
            Seq::empty(),
        );
        let ghost begin = self@;
        let ghost log = pages_read(self.log());
        let ghost reads = ledger::compaction_reads(
                    begin.pages,
                    begin.free.consumed,
                    extension.retire_ledger_tail,
                    begin.min_pin,
                    extension.retire_ledger_head,
                    Seq::empty(),
                    Seq::empty(),
                );
        let ghost mut done: Seq<u64> = Seq::empty();
        assert(log =~= log + done);
        let mut entries: Vec<ScannedReuseEntry> = Vec::new();
        let mut visited: Vec<u64> = Vec::new();
        let mut cursor: u64 = extension.retire_ledger_head;
        assert(entries@ =~= Seq::<ScannedReuseEntry>::empty());
        assert(visited@ =~= Seq::<u64>::empty());
        assert(reads =~= done + reads);
        loop
            invariant
                self.wf(),
                same_but_log(*self, *old(self)),
                begin == old(self)@,
                log == pages_read(old(self).log()),
                pages_read(self.log()) == log + done,
                reads == ledger::compaction_reads(
                    begin.pages,
                    begin.free.consumed,
                    extension.retire_ledger_tail,
                    begin.min_pin,
                    extension.retire_ledger_head,
                    Seq::empty(),
                    Seq::empty(),
                ),
                reads == done + ledger::compaction_reads(
                    begin.pages,
                    begin.free.consumed,
                    extension.retire_ledger_tail,
                    begin.min_pin,
                    cursor,
                    visited@,
                    entries@,
                ),
                spec == ledger::compaction_scan(
                    self@.pages,
                    self@.free.consumed,
                    extension.retire_ledger_tail,
                    self@.min_pin,
                    extension.retire_ledger_head,
                    Seq::empty(),
                    Seq::empty(),
                ),
                spec == ledger::compaction_scan(
                    self@.pages,
                    self@.free.consumed,
                    extension.retire_ledger_tail,
                    self@.min_pin,
                    cursor,
                    visited@,
                    entries@,
                ),
                visited@.len() <= self@.pages.len(),
                entries@.len() <= COMPACTION_ENTRY_LIMIT,
            decreases self@.pages.len() - visited@.len(),
        {
            proof {
                self.lemma_wf();
            }
            if listed_in(&visited, cursor) || visited.len() >= self.pages.len() {
                assert(reads =~= done);
                return None;
            }
            let ghost so_far = self.log();
            let ghost known = entries@;
            let ghost walked = visited@;
            let page: LedgerPage = match self.read_ledger(cursor) {
                Ok(page) => page,
                Err(_) => {
                    assert(pages_read(self.log()) =~= log + (done + ledger::read_of(
                        begin.pages,
                        cursor,
                    )));
                    return None;
                },
            };
            proof {
                assert(pages_read(self.log()) =~= log + done.push(cursor));
                assert(ledger::compaction_reads(
                    begin.pages,
                    begin.free.consumed,
                    extension.retire_ledger_tail,
                    begin.min_pin,
                    cursor,
                    walked,
                    known,
                ).len() > 0);
            }
            proof {
                lemma_entry_bound(self@.pages, cursor, self@.page_size);
            }
            let from: usize = self.effective_consumed(cursor, &page) as usize;
            let room: usize = COMPACTION_ENTRY_LIMIT - entries.len();
            let taken: usize = self.collect_eligible(cursor, &page, from, room, &mut entries);
            proof {
                lemma_eligible_len(
                    cursor,
                    page.entries@,
                    from as int,
                    self@.min_pin,
                    room as nat,
                );
            }
            visited.push(cursor);
            let exhausted: bool = from < page.entries.len() && taken < page.entries.len() - from;
            if exhausted || cursor == extension.retire_ledger_tail || page.next_page == 0
                || visited.len() == COMPACTION_LEDGER_PAGE_LIMIT {
                let scan = Scan { entries, visited, run: None };
                assert(scan@ =~= spec->0);
                assert(reads =~= done.push(cursor));
                return Some(scan);
            }
            proof {
                assert(reads =~= done.push(cursor) + ledger::compaction_reads(
                    begin.pages,
                    begin.free.consumed,
                    extension.retire_ledger_tail,
                    begin.min_pin,
                    page.next_page,
                    visited@,
                    entries@,
                ));
                done = done.push(cursor);
            }
            cursor = page.next_page;
        }
    }

    /// The free pages that a compaction knows; `None` where they cannot be
    /// trusted.
    fn gather_candidates(&self, scan: &Scan) -> (found: Option<Vec<u64>>)
        requires
            self.wf(),
        ensures
            match found {
                Some(list) => {
                    &&& !ledger::candidates_untrusted(self@.pages.len(), self@.free, scan@)
                    &&& ledger::lists(list@, ledger::compaction_candidates(self@.free, scan@))
                },
                None => ledger::candidates_untrusted(self@.pages.len(), self@.free, scan@),
            },
    {
        let ghost want = ledger::compaction_candidates(self@.free, scan@);
        let mut list: Vec<u64> = Vec::new();
        let mut ids: Vec<u64> = Vec::new();
        let mut i: usize = 0;
        while i < scan.entries.len()
            invariant
                i <= scan.entries@.len(),
                ids@ == reuse::scanned_ids(scan.entries@).subrange(0, i as int),
            decreases scan.entries@.len() - i,
        {
            ids.push(scan.entries[i].entry.page_id);
            assert(ids@ =~= reuse::scanned_ids(scan.entries@).subrange(0, i + 1));
            i += 1;
        }
        assert(ids@ =~= reuse::scanned_ids(scan.entries@));
        sorted::insert_all(&mut list, self.free.deferred_reuse.as_slice());
        sorted::insert_all(&mut list, ids.as_slice());
        assert forall|id: u64| #[trigger] list@.contains(id) <==> want.contains(id) by {}
        let mut at: usize = 0;
        while at < list.len()
            invariant
                at <= list@.len(),
                want == ledger::compaction_candidates(self@.free, scan@),
                forall|id: u64| #[trigger] list@.contains(id) <==> want.contains(id),
                forall|j: int|
                    0 <= j < at ==> !scan@.visited.contains(#[trigger] list@[j])
                        && ledger::reusable(self@.pages.len(), list@[j]),
            decreases list@.len() - at,
        {
            let id: u64 = list[at];
            if listed_in(&scan.visited, id) || !self.is_reusable(id) {
                assert(list@.contains(id));
                assert(want.contains(id));
                return None;
            }
            at += 1;
        }
        proof {
            assert forall|id: u64| #[trigger] want.contains(id) implies !scan@.visited.contains(id)
                && ledger::reusable(self@.pages.len(), id) by {
                assert(list@.contains(id));
                let j = choose|j: int| 0 <= j < list@.len() && list@[j] == id;
            }
        }
        Some(list)
    }

    /// Cuts the free end of the file off, if enough of the file is free.
    fn compact_free_tail(&mut self)
        requires
            old(self).wf(),
        ensures
            final(self).wf(),
            final(self).on_file() == old(self).on_file(),
            pages_read(final(self).log()) == pages_read(old(self).log()) + ledger::compact_reads(
                old(self)@,
            ),
            marks_extend(old(self).marks(), final(self).marks()),
            unstaging(
                new_marks(old(self).marks(), final(self).marks()),
                old(self)@.free,
                old(self).pending().len(),
                final(self).pending().len(),
            ),
            final(self)@ == ledger::compact(old(self)@),
            extends(old(self).pending(), final(self).pending()),
            compaction_actions(old(self)@, added(old(self).pending(), final(self).pending())),
            spares_slots(added(old(self).pending(), final(self).pending())),
    {
        let ghost before = self@;
        let ghost asked = self.pending();
        let ghost log = pages_read(self.log());
        let ghost marks = self.marks();
        assert(log =~= log + Seq::empty());
        assert(marks.subrange(0, marks.len() as int) =~= marks);
        assert(new_marks(marks, marks) =~= Seq::empty());
        proof {
            lemma_no_marks(before.free, asked.len(), asked.len());
        }
        proof {
            assert(added(asked, asked) =~= Seq::empty());
            assert(asked.subrange(0, asked.len() as int) =~= asked);
        }
        if !self.truncates || self.min_pin == 0 {
            return;
        }
        let extension: SuperblockExtension = match self.free.extension {
            Some(extension) => extension,
            None => {
                return;
            },
        };
        if !extension.has_ledger() {
            return;
        }
        let scan: Scan = match self.scan_for_compaction(extension) {
            Some(scan) => scan,
            None => {
                self.degrade();
                return;
            },
        };
        proof {
            let reads = ledger::compaction_reads(
                before.pages,
                before.free.consumed,
                extension.retire_ledger_tail,
                before.min_pin,
                extension.retire_ledger_head,
                Seq::empty(),
                Seq::empty(),
            );
            assert(reads =~= reads + Seq::empty());
        }
        let candidates: Vec<u64> = match self.gather_candidates(&scan) {
            Some(candidates) => candidates,
            None => {
                self.degrade();
                return;
            },
        };
        let ghost set = ledger::compaction_candidates(before.free, scan@);
        let total: usize = self.pages.len();
        proof {
            ledger::lemma_list_of(candidates@, set);
        }
        if !compaction_threshold_reached(candidates.len(), total) {
            return;
        }
        let tail: Vec<u64> = reclaimable_tail(&candidates, total);
        let count: usize = tail.len();
        proof {
            lemma_tail(candidates@, set, total as nat, count as nat);
        }
        if count == 0 {
            return;
        }
        let kept: usize = total - count;
        let mut last: usize = scan.entries.len();
        assert(scan.entries@.subrange(0, last as int) =~= scan.entries@);
        while last > 0 && scan.entries[last - 1].entry.page_id < kept as u64
            invariant
                last <= scan.entries@.len(),
                ledger::prefix_through(scan.entries@, kept as int) == ledger::prefix_through(
                    scan.entries@.subrange(0, last as int),
                    kept as int,
                ),
            decreases last,
        {
            assert(scan.entries@.subrange(0, last as int).drop_last() =~= scan.entries@.subrange(
                0,
                last - 1,
            ));
            last -= 1;
        }
        let ghost prefix = ledger::prefix_through(scan.entries@, kept as int);
        let mut entries: Vec<ScannedReuseEntry> = Vec::new();
        let mut i: usize = 0;
        while i < last
            invariant
                i <= last <= scan.entries@.len(),
                entries@ == scan.entries@.subrange(0, i as int),
            decreases last - i,
        {
            entries.push(scan.entries[i]);
            assert(entries@ =~= scan.entries@.subrange(0, i + 1));
            i += 1;
        }
        assert(entries@ == prefix);
        self.consume_entries(&entries, kept as u64, count);
        self.forget_deferred_run(kept as u64, count);
        proof {
            let run = ledger::run_set(kept as u64, count as nat);
            let cut = Set::new(|id: u64| kept <= id && id < before.pages.len());
            assert(run =~= cut);
            assert(self@.free.deferred =~= before.free.deferred.union(
                ledger::listed(prefix),
            ).difference(cut));
            assert(self@ =~= SpaceView {
                free: FreeView {
                    consumed: ledger::consumed_through(before.free.consumed, prefix),
                    deferred: before.free.deferred.union(ledger::listed(prefix)).difference(cut),
                    ..before.free
                },
                ..before
            });
        }
        assert(self@ =~= ledger::drained(before, scan@, count as nat));
        let ghost emptied = self@;
        self.flush_consumed();
        let ghost durable = self.pending();
        let ghost counted = self.marks();
        let ghost shown = self@.free;
        assert(shown == ledger::flushed(emptied).free);
        assert(stages_same(shown, before.free) && stages_same(emptied.free, before.free));
        self.cut_off(kept, count);
        proof {
            lemma_marked(
                marks,
                count_mark(emptied, (durable.len() - 1) as nat),
                counted,
                before.free,
                asked.len(),
                durable.len(),
            );
            let last = MarkView { at: self.pending().len(), free: shown };
            assert(self.marks() =~= counted + seq![last]);
            lemma_marked(
                counted,
                seq![last],
                self.marks(),
                before.free,
                durable.len(),
                self.pending().len(),
            );
            lemma_marks_after(
                marks,
                counted,
                self.marks(),
                before.free,
                before.free,
                asked.len(),
                durable.len(),
                self.pending().len(),
            );
            assert(self@ =~= ledger::compacted(before, scan@, count as nat));
            let all = added(asked, self.pending());
            let counts = added(asked, durable);
            assert(all =~= counts + seq![
                ActionView::Truncate { pages: kept as u64 },
                ActionView::Sync,
            ]);
            assert(all.drop_last().drop_last() =~= counts);
            assert(self.pending().subrange(0, asked.len() as int) =~= durable.subrange(
                0,
                asked.len() as int,
            ));
            assert(pages_read(self.log()) =~= log + ledger::compact_reads(before));
        }
    }

    /// Cuts the file off behind `kept` pages.
    fn cut_off(&mut self, kept: usize, count: usize)
        requires
            old(self).wf(),
            2 <= kept,
            kept + count == old(self)@.pages.len(),
        ensures
            final(self).wf(),
            final(self).on_file() == old(self).on_file(),
            final(self).log() == old(self).log(),
            final(self).marks() == old(self).marks().push(
                (MarkView { at: final(self).pending().len(), free: old(self)@.free }),
            ),
            final(self)@ == (SpaceView {
                pages: old(self)@.pages.subrange(0, kept as int),
                free: FreeView {
                    truncated: saturating::capped(old(self)@.free.truncated + count as nat),
                    ..old(self)@.free
                },
                ..old(self)@
            }),
            final(self).pending() == old(self).pending() + seq![
                ActionView::Truncate { pages: kept as u64 },
                ActionView::Sync,
            ],
    {
        let ghost before = self@;
        let ghost asked = self.pending();
        let ghost taken = self.undos@;
        let free: FreeState = self.free.duplicate();
        let tail: Vec<Vec<u8>> = self.pages.split_off(kept);
        let ghost cut = tail@.map_values(|page: Vec<u8>| page@);
        let undo = Undo::Regrow { tail };
        self.actions.push(Action::Truncate { pages: kept as u64 });
        self.undos.push(undo);
        self.free.truncated_in_session = plus(self.free.truncated_in_session, count as u64);
        proof {
            let action = ActionView::Truncate { pages: kept as u64 };
            assert(self@.pages =~= before.pages.subrange(0, kept as int));
            assert(undone(self@.pages, undo) =~= before.pages);
            lemma_reversible_push(
                self.base@,
                asked,
                taken,
                self.page_size as nat,
                action,
                undo,
            );
            assert(self.pending() =~= asked.push(action));
        }
        self.sync();
        self.mark(free);
        assert(self.pending() =~= asked + seq![
            ActionView::Truncate { pages: kept as u64 },
            ActionView::Sync,
        ]);
        assert(self@ =~= SpaceView {
            pages: before.pages.subrange(0, kept as int),
            free: FreeView {
                truncated: saturating::capped(before.free.truncated + count as nat),
                ..before.free
            },
            ..before
        });
    }

    /// Unlinks the fully consumed pages at the front of the chain.
    fn unlink_consumed(&mut self) -> (chain: Chain)
        requires
            old(self).wf(),
        ensures
            final(self).wf(),
            final(self).on_file() == old(self).on_file(),
            final(self).marks() == old(self).marks(),
            pages_read(final(self).log()) == pages_read(old(self).log()) + ledger::unlink_reads(
                old(self)@,
            ),
            final(self).pending() == old(self).pending(),
            (chain@, final(self)@) == ledger::unlink(old(self)@),
            chain.head != 0 ==> ledger::ledger_at(old(self)@.pages, chain.head) is Some,
            final(self)@.pages == old(self)@.pages,
    {
        let ghost before = self@;
        let ghost log = pages_read(self.log());
        let ghost mut done: Seq<u64> = Seq::empty();
        assert(log =~= log + done);
        let ghost none = ChainView { unlinked: Seq::empty(), head: 0, tail: 0 };
        let mut unlinked: Vec<u64> = Vec::new();
        assert(unlinked@ =~= Seq::<u64>::empty());
        let extension: SuperblockExtension = match self.free.extension {
            Some(extension) => extension,
            None => {
                let chain = Chain { unlinked, head: 0, tail: 0 };
                assert(chain@ =~= none);
                return chain;
            },
        };
        if !extension.has_ledger() {
            let chain = Chain { unlinked, head: 0, tail: 0 };
            assert(chain@ =~= none);
            return chain;
        }
        let tail: u64 = extension.retire_ledger_tail;
        let ghost spec = ledger::unlink_from(
            before.pages,
            before.free.consumed,
            tail,
            extension.retire_ledger_head,
            Seq::empty(),
        );
        let mut cursor: u64 = extension.retire_ledger_head;
        let ghost reads = ledger::unlink_walk(
                    before.pages,
                    before.free.consumed,
                    tail,
                    extension.retire_ledger_head,
                    Seq::empty(),
                );
        assert(reads =~= done + reads);
        loop
            invariant
                self.wf(),
                same_but_log(*self, *old(self)),
                log == pages_read(old(self).log()),
                pages_read(self.log()) == log + done,
                reads == ledger::unlink_reads(before),
                reads == done + ledger::unlink_walk(
                    before.pages,
                    before.free.consumed,
                    tail,
                    cursor,
                    unlinked@,
                ),
                self@ == before,
                before == old(self)@,
                before.free.extension == Some(extension),
                extension.names_ledger(),
                tail == extension.retire_ledger_tail,
                none == (ChainView { unlinked: Seq::empty(), head: 0, tail: 0 }),
                spec == ledger::unlink_from(
                    before.pages,
                    before.free.consumed,
                    tail,
                    extension.retire_ledger_head,
                    Seq::empty(),
                ),
                spec == ledger::unlink_from(
                    before.pages,
                    before.free.consumed,
                    tail,
                    cursor,
                    unlinked@,
                ),
                unlinked@.len() <= before.pages.len(),
            decreases before.pages.len() - unlinked@.len(),
        {
            let mut broken: bool = listed_in(&unlinked, cursor) || unlinked.len()
                >= self.pages.len();
            let ghost walked = unlinked@;
            if broken {
                assert(reads =~= done);
            }
            if !broken {
                match self.read_ledger(cursor) {
                    Ok(page) => {
                        proof {
                            assert(pages_read(self.log()) =~= log + done.push(cursor));
                            assert(ledger::unlink_walk(
                    before.pages,
                    before.free.consumed,
                    tail,
                    cursor,
                    walked,
                ).len() > 0);
                        }
                        let consumed: u32 = self.effective_consumed(cursor, &page);
                        if (consumed as u64) < page.entries.len() as u64 {
                            let chain = Chain { unlinked, head: cursor, tail };
                            assert(chain@ =~= spec->0);
                            assert(reads =~= done.push(cursor));
                            return chain;
                        }
                        unlinked.push(cursor);
                        if page.next_page != 0 && listed_in(&unlinked, page.next_page) {
                            broken = true;
                            assert(reads =~= done.push(cursor));
                        } else if cursor == tail || page.next_page == 0 {
                            let chain = Chain { unlinked, head: 0, tail: 0 };
                            assert(chain@ =~= spec->0);
                            assert(reads =~= done.push(cursor));
                            return chain;
                        } else {
                            proof {
                                assert(reads =~= done.push(cursor) + ledger::unlink_walk(
                    before.pages,
                    before.free.consumed,
                    tail,
                    page.next_page,
                    unlinked@,
                ));
                                done = done.push(cursor);
                            }
                            cursor = page.next_page;
                        }
                    },
                    Err(_) => {
                        broken = true;
                        assert(pages_read(self.log()) =~= log + (done + ledger::read_of(
                            before.pages,
                            cursor,
                        )));
                    },
                }
            }
            if broken {
                assert(spec is None);
                self.degrade();
                let chain = Chain { unlinked: Vec::new(), head: 0, tail: 0 };
                assert(chain@ =~= none);
                return chain;
            }
        }
    }
}

/// The longest free end of the file is one number of pages.
proof fn lemma_tail(list: Seq<u64>, set: Set<u64>, page_count: nat, count: nat)
    requires
        ledger::lists(list, set),
        count <= reuse::COMPACTION_TRUNCATE_PAGE_LIMIT,
        count <= page_count,
        reuse::tail_free(list, page_count, count),
        count < reuse::COMPACTION_TRUNCATE_PAGE_LIMIT ==> !reuse::tail_free(
            list,
            page_count,
            count + 1,
        ),
    ensures
        ledger::is_tail(set, page_count, count),
        (choose|count: nat| ledger::is_tail(set, page_count, count)) == count,
        count > 0 ==> page_count - count >= 2,
{
    assert forall|n: nat| #[trigger] reuse::tail_free(list, page_count, n) <==> ledger::tail_of(
        set,
        page_count,
        n,
    ) by {
        if reuse::tail_free(list, page_count, n) {
            assert forall|id: u64| page_count - n <= id && id < page_count implies
                #[trigger] set.contains(id) by {
                assert(list.contains(id));
            }
        }
        if ledger::tail_of(set, page_count, n) {
            assert forall|id: u64| page_count - n <= id && id < page_count implies
                #[trigger] list.contains(id) by {
                assert(set.contains(id));
            }
        }
    }
    assert(reuse::tail_free(list, page_count, count));
    if count < reuse::COMPACTION_TRUNCATE_PAGE_LIMIT {
        assert(!reuse::tail_free(list, page_count, count + 1));
    }
    assert(ledger::is_tail(set, page_count, count));
    let other = choose|count: nat| ledger::is_tail(set, page_count, count);
    assert(ledger::is_tail(set, page_count, other));
    if other < count {
        assert(ledger::tail_of(set, page_count, other + 1));
    } else if count < other {
        assert(ledger::tail_of(set, page_count, count + 1));
    }
}

/// The lists of a retirement while its ledger pages are gathered.
#[derive(Debug)]
struct Gather {
    listing: Vec<u64>,
    deferred: Vec<u64>,
    fresh: Vec<u64>,
}

/// The lists together with the space.
closed spec fn gathered(space: SpaceView, gather: Gather) -> GatherView {
    GatherView {
        space,
        listing: members(gather.listing@),
        deferred: members(gather.deferred@),
        fresh: gather.fresh@,
    }
}

/// How many pages hold `entries` entries.
fn pages_needed(entries: usize, capacity: usize) -> (pages: usize)
    requires
        capacity > 0,
    ensures
        pages == ledger::pages_for(entries as nat, capacity as nat),
        entries > 0 ==> pages > 0,
        pages <= entries,
{
    let whole: usize = entries / capacity;
    let rest: usize = entries % capacity;
    proof {
        let e = entries as int;
        let c = capacity as int;
        let w = whole as int;
        let r = rest as int;
        vstd::arithmetic::div_mod::lemma_fundamental_div_mod(e, c);
        assert(w <= e) by (nonlinear_arith)
            requires
                e == c * w + r,
                c >= 1,
                w >= 0,
                r >= 0,
        ;
        if r == 0 {
            assert(e + c - 1 == c * w + (c - 1));
            vstd::arithmetic::div_mod::lemma_fundamental_div_mod_converse(
                e + c - 1,
                c,
                w,
                c - 1,
            );
            if e > 0 && w == 0 {
                assert(c * w == 0) by (nonlinear_arith)
                    requires
                        w == 0,
                ;
            }
        } else {
            assert(c * (w + 1) == c * w + c) by (nonlinear_arith);
            assert(e + c - 1 == c * (w + 1) + (r - 1));
            vstd::arithmetic::div_mod::lemma_fundamental_div_mod_converse(
                e + c - 1,
                c,
                w + 1,
                r - 1,
            );
            assert(w + 1 <= e) by (nonlinear_arith)
                requires
                    e == c * w + r,
                    c >= 1,
                    w >= 0,
                    r >= 1,
            ;
        }
    }
    if rest == 0 {
        whole
    } else {
        whole + 1
    }
}

/// More entries need no fewer pages, and one more entry at most one more.
proof fn lemma_pages_step(entries: nat, capacity: nat)
    requires
        capacity > 0,
        entries > 0,
    ensures
        ledger::pages_for((entries - 1) as nat, capacity) <= ledger::pages_for(entries, capacity),
{
    vstd::arithmetic::div_mod::lemma_div_is_ordered(
        entries - 1 + capacity - 1,
        entries + capacity - 1,
        capacity as int,
    );
}

/// Whether every gathered page is a data page of the file.
spec fn fresh_in_file(fresh: Seq<u64>, page_count: nat) -> bool {
    forall|i: int| 0 <= i < fresh.len() ==> SUPERBLOCK_SLOTS <= (#[trigger] fresh[i]) < page_count
}

impl PageSpace {
    /// The next entry of the surviving chain, taken for a ledger page.
    fn pop_for_ledger(&mut self, chain: &Chain, gather: &Gather) -> (taken: Option<u64>)
        requires
            old(self).wf(),
            sorted::ascending(gather.listing@),
            chain.head != 0 ==> ledger::ledger_at(old(self)@.pages, chain.head) is Some,
        ensures
            final(self).wf(),
            final(self).on_file() == old(self).on_file(),
            final(self).marks() == old(self).marks(),
            pages_read(final(self).log()) == pages_read(old(self).log()) + if chain.head == 0
                || old(self)@.min_pin == 0 {
                Seq::empty()
            } else {
                ledger::read_of(old(self)@.pages, chain.head)
            },
            final(self).pending() == old(self).pending(),
            ({
                let start = gathered(old(self)@, *gather);
                match ledger::next_entry(start, chain@) {
                    Some(entry) => taken == Some(entry.page_id) && Some(
                        GatherView {
                            space: final(self)@,
                            fresh: gather.fresh@.push(entry.page_id),
                            ..start
                        },
                    ) == ledger::gather_one(start, chain@) && entry.page_id
                        < old(self)@.pages.len() && entry.page_id >= SUPERBLOCK_SLOTS,
                    None => taken is None && final(self)@ == old(self)@,
                }
            }),
            final(self)@.pages == old(self)@.pages,
    {
        let ghost before = self@;
        let ghost log = self.log();
        assert(pages_read(log) =~= pages_read(log) + Seq::empty());
        let ghost start = gathered(before, *gather);
        if chain.head == 0 || self.min_pin == 0 {
            return None;
        }
        let read: DevonResult<LedgerPage> = self.read_ledger(chain.head);
        assert(pages_read(self.log()) =~= pages_read(log) + ledger::read_of(
            before.pages,
            chain.head,
        ));
        let page: LedgerPage = match read {
            Ok(page) => page,
            Err(_) => {
                return None;
            },
        };
        proof {
            self.lemma_wf();
            lemma_entry_bound(self@.pages, chain.head, self@.page_size);
        }
        let at: u32 = self.effective_consumed(chain.head, &page);
        if at as u64 >= page.entries.len() as u64 {
            return None;
        }
        let entry: LedgerEntry = page.entries[at as usize];
        if entry.retired_lsn >= self.min_pin || entry.page_id < SUPERBLOCK_SLOTS || sorted::has(
            &gather.listing,
            entry.page_id,
        ) || chain.tail == 0 || !self.is_reusable(entry.page_id) {
            return None;
        }
        self.free.consumed_in_session.set(chain.head, at + 1);
        self.free.reused_in_session = plus(self.free.reused_in_session, 1);
        proof {
            let next = ledger::gather_one(start, chain@)->0;
            assert(self@ =~= next.space);
        }
        Some(entry.page_id)
    }

    /// The lowest deferred page, taken for a ledger page.
    fn pop_deferred(&mut self, gather: &mut Gather) -> (taken: Option<u64>)
        requires
            old(self).wf(),
            sorted::ascending(old(gather).listing@),
            sorted::ascending(old(gather).deferred@),
        ensures
            final(self).wf(),
            final(self).on_file() == old(self).on_file(),
            noted(*final(self), *old(self)),
            final(self).pending() == old(self).pending(),
            sorted::ascending(final(gather).listing@),
            sorted::ascending(final(gather).deferred@),
            final(gather).fresh@ == old(gather).fresh@,
            final(self)@.pages == old(self)@.pages,
            ({
                let start = gathered(old(self)@, *old(gather));
                match taken {
                    Some(id) => {
                        &&& ledger::is_next_deferred(start, id)
                        &&& id == choose|id: u64| ledger::is_next_deferred(start, id)
                        &&& id < old(self)@.pages.len()
                        &&& final(self)@ == (SpaceView {
                            free: FreeView {
                                deferred: old(self)@.free.deferred.remove(id),
                                reused: saturating::capped(old(self)@.free.reused + 1),
                                ..old(self)@.free
                            },
                            ..old(self)@
                        })
                        &&& members(final(gather).listing@) == start.listing.remove(id)
                        &&& members(final(gather).deferred@) == start.deferred.remove(id)
                        &&& final(gather).listing@.len() <= old(gather).listing@.len()
                    },
                    None => {
                        &&& !exists|id: u64| ledger::is_next_deferred(start, id)
                        &&& final(self)@ == old(self)@
                        &&& final(gather).listing@ == old(gather).listing@
                        &&& final(gather).deferred@ == old(gather).deferred@
                    },
                }
            }),
    {
        let ghost before = self@;
        let ghost start = gathered(before, *gather);
        let ghost held = gather.deferred@;
        let ghost list = gather.listing@;
        let mut at: usize = 0;
        while at < gather.deferred.len() && !self.is_reusable(gather.deferred[at])
            invariant
                at <= gather.deferred@.len(),
                gather.deferred@ == held,
                forall|j: int|
                    0 <= j < at ==> !ledger::reusable(self@.pages.len(), #[trigger] held[j]),
            decreases gather.deferred@.len() - at,
        {
            at += 1;
        }
        if at == gather.deferred.len() {
            proof {
                assert forall|id: u64| !ledger::is_next_deferred(start, id) by {
                    if held.contains(id) {
                        let j = choose|j: int| 0 <= j < held.len() && held[j] == id;
                        assert(!ledger::reusable(before.pages.len(), held[j]));
                    }
                }
            }
            return None;
        }
        let id: u64 = gather.deferred[at];
        proof {
            assert(held.contains(id));
            assert forall|other: u64| #[trigger] start.deferred.contains(other)
                && ledger::reusable(before.pages.len(), other) implies id <= other by {
                let j = choose|j: int| 0 <= j < held.len() && held[j] == other;
                if j < at {
                    assert(!ledger::reusable(before.pages.len(), held[j]));
                } else if j > at {
                    assert(held[at as int] < held[j]);
                }
            }
            assert(ledger::is_next_deferred(start, id));
            let chosen = choose|id: u64| ledger::is_next_deferred(start, id);
            assert(ledger::is_next_deferred(start, chosen));
        }
        sorted::remove(&mut gather.deferred, id);
        sorted::remove(&mut gather.listing, id);
        let ghost pool = self.free.deferred_reuse@;
        sorted::remove(&mut self.free.deferred_reuse, id);
        self.free.reused_in_session = plus(self.free.reused_in_session, 1);
        proof {
            assert(members(gather.deferred@) =~= start.deferred.remove(id));
            assert(members(gather.listing@) =~= start.listing.remove(id));
            assert(members(self.free.deferred_reuse@) =~= members(pool).remove(id));
            assert(self@ =~= SpaceView {
                free: FreeView {
                    deferred: before.free.deferred.remove(id),
                    reused: saturating::capped(before.free.reused + 1),
                    ..before.free
                },
                ..before
            });
        }
        Some(id)
    }

    /// Gathers the ledger pages of a retirement; whether the file could hold
    /// them.
    fn gather_ledger_pages(&mut self, chain: &Chain, gather: &mut Gather) -> (complete: bool)
        requires
            old(self).wf(),
            sorted::ascending(old(gather).listing@),
            sorted::ascending(old(gather).deferred@),
            old(gather).fresh@.len() == 0,
            old(gather).listing@.len() > 0,
            chain.head != 0 ==> ledger::ledger_at(old(self)@.pages, chain.head) is Some,
        ensures
            final(self).wf(),
            final(self).on_file() == old(self).on_file(),
            final(self).marks() == old(self).marks(),
            pages_read(final(self).log()) == pages_read(old(self).log()) + ledger::gather_reads(
                gathered(old(self)@, *old(gather)),
                chain@,
                ledger::chunk_count(old(gather).listing@.len(), old(self)@.page_size),
            ),
            sorted::ascending(final(gather).listing@),
            sorted::ascending(final(gather).deferred@),
            (complete, gathered(final(self)@, *final(gather))) == ledger::gather_all(
                gathered(old(self)@, *old(gather)),
                chain@,
                ledger::chunk_count(old(gather).listing@.len(), old(self)@.page_size),
            ),
            fresh_in_file(final(gather).fresh@, final(self)@.pages.len()),
            old(self)@.pages.len() <= final(self)@.pages.len(),
            final(self).pending() == old(self).pending() + zero_writes(
                old(self)@.pages.len() as int,
                (final(self)@.pages.len() - old(self)@.pages.len()) as nat,
                old(self)@.page_size,
            ),
            complete ==> final(gather).fresh@.len() == ledger::chunk_count(
                final(gather).listing@.len(),
                final(self)@.page_size,
            ) && final(gather).fresh@.len() > 0,
    {
        let ghost begin = gathered(self@, *gather);
        let ghost asked = self.pending();
        let ghost log = pages_read(self.log());
        let ghost mut done: Seq<u64> = Seq::empty();
        assert(log =~= log + done);
        let ghost first = self@.pages.len();
        assert(asked =~= asked + zero_writes(first as int, 0, self@.page_size));
        let capacity: usize = LedgerPage::capacity(self.page_size as usize);
        let ghost steps = ledger::chunk_count(gather.listing@.len(), self@.page_size);
        let ghost spec = ledger::gather_all(begin, chain@, steps);
        let ghost mut left: nat = steps;
        let ghost reads = ledger::gather_reads(begin, chain@, steps);
        assert(reads =~= done + reads);
        let needed: usize = pages_needed(gather.listing.len(), capacity);
        let mut missing: usize = needed;
        loop
            invariant
                self.wf(),
                self.on_file() == old(self).on_file(),
                self.marks() == old(self).marks(),
                log == pages_read(old(self).log()),
                pages_read(self.log()) == log + done,
                reads == ledger::gather_reads(begin, chain@, steps),
                reads == done + ledger::gather_reads(gathered(self@, *gather), chain@, left),
                self@.page_size == old(self)@.page_size,
                asked == old(self).pending(),
                first == old(self)@.pages.len(),
                first <= self@.pages.len(),
                self.pending() == asked + zero_writes(
                    first as int,
                    (self@.pages.len() - first) as nat,
                    self@.page_size,
                ),
                begin == gathered(old(self)@, *old(gather)),
                steps == ledger::chunk_count(old(gather).listing@.len(), old(self)@.page_size),
                spec == ledger::gather_all(begin, chain@, steps),
                sorted::ascending(gather.listing@),
                sorted::ascending(gather.deferred@),
                chain.head != 0 ==> ledger::ledger_at(self@.pages, chain.head) is Some,
                capacity == free_pages::capacity_of(self@.page_size),
                capacity > 0,
                gather.listing@.len() > 0,
                spec == ledger::gather_all(gathered(self@, *gather), chain@, left),
                ledger::pages_for(gather.listing@.len(), capacity as nat) <= gather.fresh@.len()
                    + left,
                gather.fresh@.len() <= ledger::pages_for(
                    gather.listing@.len(),
                    capacity as nat,
                ),
                fresh_in_file(gather.fresh@, self@.pages.len()),
            decreases left,
        {
            let ghost now = gathered(self@, *gather);
            let ghost fresh = gather.fresh@;
            let ghost read = if chain.head == 0 || now.space.min_pin == 0 {
                Seq::<u64>::empty()
            } else {
                ledger::read_of(now.space.pages, chain.head)
            };
            proof {
                ledger::lemma_list_of(gather.listing@, now.listing);
            }
            missing = pages_needed(gather.listing.len(), capacity);
            if gather.fresh.len() >= missing {
                return true;
            }
            let count: usize = gather.listing.len();
            let popped: Option<u64> = self.pop_for_ledger(chain, gather);
            match popped {
                Some(id) => {
                    gather.fresh.push(id);
                    proof {
                        assert(gathered(self@, *gather) =~= ledger::gather_one(now, chain@)->0);
                    }
                },
                None => {
                    let short: bool = gather.fresh.len() < pages_needed(count - 1, capacity);
                    let mut taken: Option<u64> = None;
                    if short {
                        taken = self.pop_deferred(gather);
                    }
                    match taken {
                        Some(id) => {
                            gather.fresh.push(id);
                            proof {
                                ledger::lemma_list_of(
                                    gather.listing@,
                                    members(gather.listing@),
                                );
                                lemma_pages_step(count as nat, capacity as nat);
                                assert(gathered(self@, *gather) =~= ledger::gather_one(
                                    now,
                                    chain@,
                                )->0);
                                lemma_removed_len(now.listing, id);
                            }
                        },
                        None => {
                            match self.grow(1) {
                                Some(id) => {
                                    gather.fresh.push(id);
                                    proof {
                                        assert(self.pending() =~= asked + zero_writes(
                                            first as int,
                                            (self@.pages.len() - first) as nat,
                                            self@.page_size,
                                        ));
                                        assert(gathered(self@, *gather) =~= ledger::gather_one(
                                            now,
                                            chain@,
                                        )->0);
                                        if chain.head != 0 {
                                            assert(self@.pages[chain.head as int]
                                                == now.space.pages[chain.head as int]);
                                        }
                                    }
                                },
                                None => {
                                    proof {
                                        assert(gathered(self@, *gather) =~= now);
                                        assert(reads =~= done + read);
                                        assert(pages_read(self.log()) =~= log + (done + read));
                                    }
                                    return false;
                                },
                            }
                        },
                    }
                },
            }
            proof {
                assert(pages_read(self.log()) =~= log + (done + read));
                assert(reads =~= (done + read) + ledger::gather_reads(
                    gathered(self@, *gather),
                    chain@,
                    (left - 1) as nat,
                ));
                done = done + read;
                left = (left - 1) as nat;
                assert forall|i: int| 0 <= i < gather.fresh@.len() implies SUPERBLOCK_SLOTS <= (
                #[trigger] gather.fresh@[i]) < self@.pages.len() by {
                    if i < fresh.len() {
                        assert(gather.fresh@[i] == fresh[i]);
                    }
                }
            }
        }
    }
}

proof fn lemma_removed_len(set: Set<u64>, id: u64)
    requires
        set.finite(),
    ensures
        set.remove(id).len() <= set.len(),
        set.remove(id).len() >= set.len() - 1,
{
}

/// The actions of a retirement that lists nothing: it is refused, or there is nothing to list.
proof fn lemma_retired_early(
    space: SpaceView,
    superseded: Set<u64>,
    lsn: u64,
    asked: Seq<ActionView>,
    cut: Seq<ActionView>,
    counts: Seq<ActionView>,
    pending: Seq<ActionView>,
)
    requires
        compaction_actions(space, cut),
        pending == asked + cut + counts,
        spares_slots(cut),
        spares_slots(counts),
        ({
            let listing = ledger::retired_set(space, superseded);
            if exists|id: u64| #[trigger] listing.contains(id) && id < SUPERBLOCK_SLOTS {
                counts.len() == 0
            } else {
                &&& listing.is_empty()
                &&& makes_counts_durable(ledger::unlink(ledger::compact(space)).1, counts)
            }
        }),
    ensures
        extends(asked, pending),
        retire_actions(space, superseded, lsn, cut, counts, added(asked, pending)),
        spares_slots(added(asked, pending)),
{
    reveal(retire_actions);
    assert(pending.subrange(0, asked.len() as int) =~= asked);
    assert(added(asked, pending) =~= cut + counts);
    assert(counts.len() == 0 ==> cut + counts =~= cut);
}

/// The actions of a retirement that lists pages.
proof fn lemma_retired(
    space: SpaceView,
    superseded: Set<u64>,
    lsn: u64,
    asked: Seq<ActionView>,
    cut: Seq<ActionView>,
    counts: Seq<ActionView>,
    tail: Seq<ActionView>,
    pending: Seq<ActionView>,
)
    requires
        compaction_actions(space, cut),
        spares_slots(cut),
        spares_slots(counts),
        spares_slots(tail),
        ({
            let (chain, start) = ledger::unlink(ledger::compact(space));
            let listing = ledger::retired_set(space, superseded);
            let (complete, gather) = ledger::gather_all(
                GatherView {
                    space: start,
                    listing,
                    deferred: start.free.deferred,
                    fresh: Seq::empty(),
                },
                chain,
                ledger::chunk_count(listing.len(), space.page_size),
            );
            let grown = zero_writes(
                start.pages.len() as int,
                (gather.space.pages.len() - start.pages.len()) as nat,
                space.page_size,
            );
            &&& !exists|id: u64| #[trigger] listing.contains(id) && id < SUPERBLOCK_SLOTS
            &&& !listing.is_empty()
            &&& pending == asked + cut + grown + counts + tail
            &&& SUPERBLOCK_SLOTS <= start.pages.len() <= gather.space.pages.len() <= u64::MAX
            &&& if complete {
                &&& makes_counts_durable(gather.space, counts)
                &&& tail == chain_actions(gather, chain, lsn, ledger::list_of(gather.listing))
            } else {
                counts.len() == 0 && tail.len() == 0
            }
        }),
    ensures
        extends(asked, pending),
        retire_actions(space, superseded, lsn, cut, counts, added(asked, pending)),
        spares_slots(added(asked, pending)),
{
    let (chain, start) = ledger::unlink(ledger::compact(space));
    let listing = ledger::retired_set(space, superseded);
    let (complete, gather) = ledger::gather_all(
        GatherView { space: start, listing, deferred: start.free.deferred, fresh: Seq::empty() },
        chain,
        ledger::chunk_count(listing.len(), space.page_size),
    );
    let grown = zero_writes(
        start.pages.len() as int,
        (gather.space.pages.len() - start.pages.len()) as nat,
        space.page_size,
    );
    reveal(retire_actions);
    assert(pending.subrange(0, asked.len() as int) =~= asked);
    assert(added(asked, pending) =~= cut + grown + counts + tail);
    if !complete {
        assert(cut + grown + counts + tail =~= cut + grown);
    }
    assert(spares_slots(grown));
    assert(spares_slots(cut + grown + counts + tail));
}

/// Marks that go on twice.
proof fn lemma_marks_continue(first: Seq<MarkView>, middle: Seq<MarkView>, last: Seq<MarkView>)
    requires
        marks_extend(first, middle),
        marks_extend(middle, last),
    ensures
        marks_extend(first, last),
        new_marks(first, last) == new_marks(first, middle) + new_marks(middle, last),
{
    assert(last.subrange(0, first.len() as int) =~= middle.subrange(0, first.len() as int));
    assert forall|i: int| first.len() <= i < middle.len() implies last[i] == middle[i] by {
        assert(last.subrange(0, middle.len() as int)[i] == middle[i]);
    }
    assert(new_marks(first, last) =~= new_marks(first, middle) + new_marks(middle, last));
}

/// A list of actions that continues another by a part, and then by one or two actions more.
proof fn lemma_continued(
    before: Seq<ActionView>,
    part: Seq<ActionView>,
    whole: Seq<ActionView>,
    after: Seq<ActionView>,
)
    requires
        part.len() < whole.len() <= part.len() + 2,
        whole.subrange(0, part.len() as int) == part,
        after.len() == before.len() + whole.len(),
        after.subrange(0, (before.len() + part.len()) as int) == before + part,
        forall|i: int|
            part.len() <= i < whole.len() ==> #[trigger] whole[i] == after[before.len() + i],
    ensures
        after == before + whole,
{
    assert forall|i: int| 0 <= i < after.len() implies after[i] == (before + whole)[i] by {
        if i < before.len() + part.len() {
            assert(after[i] == after.subrange(0, (before.len() + part.len()) as int)[i]);
            if i >= before.len() {
                assert(whole[i - before.len()] == whole.subrange(0, part.len() as int)[i
                    - before.len()]);
            }
        } else {
            assert(whole[i - before.len()] == after[before.len() + (i - before.len())]);
        }
    }
    assert(after =~= before + whole);
}

impl PageSpace {
    /// Writes the gathered ledger pages.
    fn write_fresh(&mut self, gather: &Gather, lsn: u64)
        requires
            old(self).wf(),
            gather.fresh@.len() == ledger::chunk_count(
                gather.listing@.len(),
                old(self)@.page_size,
            ),
            fresh_in_file(gather.fresh@, old(self)@.pages.len()),
        ensures
            final(self).wf(),
            final(self).on_file() == old(self).on_file(),
            noted(*final(self), *old(self)),
            final(self)@ == (SpaceView {
                pages: ledger::fresh_written(
                    old(self)@.pages,
                    gather.listing@,
                    gather.fresh@,
                    lsn,
                    old(self)@.page_size,
                    gather.fresh@.len(),
                ),
                ..old(self)@
            }),
            final(self)@.pages.len() == old(self)@.pages.len(),
            final(self).pending() == old(self).pending() + fresh_writes(
                gather.listing@,
                gather.fresh@,
                lsn,
                old(self)@.page_size,
                gather.fresh@.len(),
            ),
    {
        let ghost before = self@;
        let ghost asked = self.pending();
        let size: usize = self.page_size as usize;
        let capacity: usize = LedgerPage::capacity(size);
        let total: usize = self.pages.len();
        let listed: usize = gather.listing.len();
        let count: usize = gather.fresh.len();
        let mut index: usize = 0;
        let mut from: usize = 0;
        assert(self@ =~= SpaceView {
            pages: ledger::fresh_written(
                before.pages,
                gather.listing@,
                gather.fresh@,
                lsn,
                before.page_size,
                0,
            ),
            ..before
        });
        proof {
            self.lemma_wf();
            lemma_chunks_cover(listed as nat, capacity as nat);
            assert(asked =~= asked + fresh_writes(
                gather.listing@,
                gather.fresh@,
                lsn,
                before.page_size,
                0,
            ));
        }
        while index < count
            invariant
                index <= count,
                self.wf(),
                self.on_file() == old(self).on_file(),
                noted(*self, *old(self)),
                size == before.page_size,
                4096 <= size <= 65536,
                size == self.page_size,
                capacity == free_pages::capacity_of(size as nat),
                254 <= capacity <= 4096,
                listed == gather.listing@.len(),
                count == gather.fresh@.len(),
                count == ledger::pages_for(listed as nat, capacity as nat),
                total == before.pages.len(),
                fresh_in_file(gather.fresh@, total as nat),
                from == if index * capacity < listed {
                    index * capacity
                } else {
                    listed as int
                },
                forall|k: int|
                    0 <= k < count ==> #[trigger] starts_before(k, capacity as nat, listed as nat),
                self@.pages.len() == total,
                self.pending() == asked + fresh_writes(
                    gather.listing@,
                    gather.fresh@,
                    lsn,
                    before.page_size,
                    index as nat,
                ),
                self@ == (SpaceView {
                    pages: ledger::fresh_written(
                        before.pages,
                        gather.listing@,
                        gather.fresh@,
                        lsn,
                        before.page_size,
                        index as nat,
                    ),
                    ..before
                }),
            decreases count - index,
        {
            assert(starts_before(index as int, capacity as nat, listed as nat));
            let to: usize = if capacity < listed - from {
                from + capacity
            } else {
                listed
            };
            let mut entries: Vec<LedgerEntry> = Vec::new();
            let mut i: usize = from;
            while i < to
                invariant
                    from <= i <= to <= listed,
                    listed == gather.listing@.len(),
                    entries@.len() == i - from,
                    forall|k: int|
                        0 <= k < i - from ==> #[trigger] entries@[k] == (LedgerEntry {
                            page_id: gather.listing@[from + k],
                            retired_lsn: lsn,
                        }),
                decreases to - i,
            {
                entries.push(LedgerEntry { page_id: gather.listing[i], retired_lsn: lsn });
                i += 1;
            }
            let next_page: u64 = if index + 1 < count {
                gather.fresh[index + 1]
            } else {
                0
            };
            let page = LedgerPage { next_page, consumed_count: 0, entries };
            proof {
                assert(page@ =~= ledger::fresh_ledger(
                    gather.listing@,
                    gather.fresh@,
                    capacity as nat,
                    lsn,
                    index as int,
                ));
            }
            let id: u64 = gather.fresh[index];
            assert(id < total);
            match page.encode(size) {
                Ok(bytes) => {
                    self.write(id as usize, bytes);
                },
                Err(_) => {},
            }
            proof {
                assert((index + 1) * capacity == index * capacity + capacity) by (nonlinear_arith);
                assert(self.pending() =~= asked + fresh_writes(
                    gather.listing@,
                    gather.fresh@,
                    lsn,
                    before.page_size,
                    (index + 1) as nat,
                ));
                assert(self@ =~= SpaceView {
                    pages: ledger::fresh_written(
                        before.pages,
                        gather.listing@,
                        gather.fresh@,
                        lsn,
                        before.page_size,
                        (index + 1) as nat,
                    ),
                    ..before
                });
            }
            from = to;
            index += 1;
        }
    }

    /// Names the chain that the next superblock commit publishes.
    fn stage_chain(&mut self, chain: &Chain, gather: Gather)
        requires
            old(self).wf(),
            gather.fresh@.len() > 0,
            sorted::ascending(gather.deferred@),
        ensures
            final(self).wf(),
            final(self).on_file() == old(self).on_file(),
            final(self).log() == old(self).log(),
            final(self).marks() == old(self).marks().push(
                (MarkView { at: old(self).pending().len(), free: old(self)@.free }),
            ),
            final(self).pending() == old(self).pending(),
            ({
                let total = match old(self)@.free.extension {
                    Some(extension) => extension.retired_total as nat,
                    None => old(self)@.free.floor,
                };
                final(self)@ == (SpaceView {
                    free: FreeView {
                        pending: Some(
                            SuperblockExtension {
                                retire_ledger_head: if chain@.head != 0 {
                                    chain@.head
                                } else {
                                    gather.fresh@[0]
                                },
                                retire_ledger_tail: gather.fresh@.last(),
                                retired_total: saturating::capped(
                                    total + gather.listing@.len(),
                                ) as u64,
                            },
                        ),
                        pending_deferred: members(gather.deferred@),
                        ..old(self)@.free
                    },
                    ..old(self)@
                })
            }),
    {
        let total: u64 = match self.free.extension {
            Some(extension) => extension.retired_total,
            None => self.free.retired_total_floor,
        };
        let ghost before = self@;
        let free: FreeState = self.free.duplicate();
        self.mark(free);
        let count: usize = gather.fresh.len();
        let pending = SuperblockExtension {
            retire_ledger_head: if chain.head != 0 {
                chain.head
            } else {
                gather.fresh[0]
            },
            retire_ledger_tail: gather.fresh[count - 1],
            retired_total: plus(total, gather.listing.len() as u64),
        };
        self.free.pending_extension = Some(pending);
        self.free.pending_deferred_reuse = gather.deferred;
        assert(self@ =~= SpaceView {
            free: FreeView {
                pending: Some(pending),
                pending_deferred: members(gather.deferred@),
                ..before.free
            },
            ..before
        });
    }

    /// Makes the consumed counts durable and stages the chain as it is.
    fn restage_chain(&mut self)
        requires
            old(self).wf(),
        ensures
            final(self).wf(),
            final(self).on_file() == old(self).on_file(),
            pages_read(final(self).log()) == pages_read(old(self).log()) + ledger::flush_reads(
                old(self)@,
            ),
            marks_extend(old(self).marks(), final(self).marks()),
            unstaging(
                new_marks(old(self).marks(), final(self).marks()),
                old(self)@.free,
                old(self).pending().len(),
                final(self).pending().len(),
            ),
            final(self).marks().len() > old(self).marks().len(),
            final(self).marks().last().at == final(self).pending().len(),
            ({
                let after = ledger::flushed(old(self)@);
                final(self)@ == (SpaceView {
                    free: FreeView {
                        pending: after.free.extension,
                        pending_deferred: Set::empty(),
                        ..after.free
                    },
                    ..after
                })
            }),
            extends(old(self).pending(), final(self).pending()),
            makes_counts_durable(old(self)@, added(old(self).pending(), final(self).pending())),
            spares_slots(added(old(self).pending(), final(self).pending())),
    {
        self.flush_consumed();
        let ghost after = self@;
        let ghost counted = self.marks();
        let free: FreeState = self.free.duplicate();
        self.mark(free);
        proof {
            let before = old(self)@;
            let asked = old(self).pending().len();
            let end = self.pending().len();
            let last = MarkView { at: end, free: after.free };
            lemma_marked(
                old(self).marks(),
                count_mark(before, (end - 1) as nat),
                counted,
                before.free,
                asked,
                end,
            );
            assert(self.marks() =~= counted + seq![last]);
            lemma_marked(counted, seq![last], self.marks(), before.free, end, end);
            lemma_marks_after(
                old(self).marks(),
                counted,
                self.marks(),
                before.free,
                before.free,
                asked,
                end,
                end,
            );
        }
        self.free.pending_extension = self.free.extension;
        self.free.pending_deferred_reuse = Vec::new();
        proof {
            assert(members(self.free.pending_deferred_reuse@) =~= Set::<u64>::empty());
            assert(self@ =~= SpaceView {
                free: FreeView {
                    pending: after.free.extension,
                    pending_deferred: Set::empty(),
                    ..after.free
                },
                ..after
            });
        }
    }

    /// Writes the chain of a retirement and stages it.
    #[verifier::rlimit(40)]
    #[verifier::spinoff_prover]
    fn publish_chain(&mut self, chain: &Chain, gather: Gather, lsn: u64) -> (result: DevonResult<()>)
        requires
            old(self).wf(),
            sorted::ascending(gather.listing@),
            sorted::ascending(gather.deferred@),
            gather.fresh@.len() == ledger::chunk_count(
                gather.listing@.len(),
                old(self)@.page_size,
            ),
            gather.fresh@.len() > 0,
            fresh_in_file(gather.fresh@, old(self)@.pages.len()),
        ensures
            final(self).wf(),
            final(self).on_file() == old(self).on_file(),
            pages_read(final(self).log()) == pages_read(old(self).log()) + ledger::publish_reads(
                old(self)@,
                chain@,
            ),
            marks_extend(old(self).marks(), final(self).marks()),
            unstaging(
                new_marks(old(self).marks(), final(self).marks()),
                old(self)@.free,
                old(self).pending().len(),
                final(self).pending().len(),
            ),
            result is Ok ==> {
                &&& final(self).marks().len() > old(self).marks().len()
                &&& final(self).marks().last().at == final(self).pending().len()
            },
            ({
                let (failure, after) = ledger::published(
                    gathered(old(self)@, gather),
                    chain@,
                    lsn,
                    gather.listing@,
                );
                &&& final(self)@ == after
                &&& match result {
                    Ok(()) => failure is None,
                    Err(error) => failure == Some(error.kind_of()),
                }
            }),
            exists|counts: Seq<ActionView>| #[trigger]
                makes_counts_durable(old(self)@, counts) && final(self).pending() == old(
                    self,
                ).pending() + counts + chain_actions(
                    gathered(old(self)@, gather),
                    chain@,
                    lsn,
                    gather.listing@,
                ) && spares_slots(counts),
            spares_slots(
                chain_actions(gathered(old(self)@, gather), chain@, lsn, gather.listing@),
            ),
    {
        let ghost start = gathered(self@, gather);
        let ghost asked = self.pending();
        let ghost log = pages_read(self.log());
        let ghost marks = self.marks();
        self.flush_consumed();
        let ghost durable = self.pending();
        let ghost counts = added(asked, durable);
        proof {
            assert(self@ == ledger::flushed(start.space));
            assert(durable =~= asked + counts);
        }
        let ghost counted = self.marks();
        let ghost shown = self@.free;
        proof {
            lemma_marked(
                marks,
                count_mark(start.space, (durable.len() - 1) as nat),
                counted,
                start.space.free,
                asked.len(),
                durable.len(),
            );
            lemma_no_marks(start.space.free, durable.len(), durable.len());
        }
        self.write_fresh(&gather, lsn);
        let ghost written = self@;
        let ghost listing = gather.listing@;
        let ghost fresh = fresh_writes(
            listing,
            gather.fresh@,
            lsn,
            start.space.page_size,
            ledger::chunk_count(listing.len(), start.space.page_size),
        );
        let ghost tail = chain_actions(start, chain@, lsn, listing);
        assert(self.pending() == durable + fresh);
        assert(spares_slots(fresh));
        assert(pages_read(self.log()) =~= log + (ledger::flush_reads(start.space)
            + Seq::empty()));
        if chain.tail != 0 {
            let read: DevonResult<LedgerPage> = self.read_ledger(chain.tail);
            assert(pages_read(self.log()) =~= log + ledger::publish_reads(start.space, chain@));
            let mut page: LedgerPage = match read {
                Ok(page) => page,
                Err(error) => {
                    assert(tail == fresh);
                    proof {
                        assert(counted =~= counted + Seq::<MarkView>::empty());
                        lemma_marked(
                            counted,
                            Seq::empty(),
                            counted,
                            start.space.free,
                            durable.len(),
                            self.pending().len(),
                        );
                        lemma_marks_after(
                            marks,
                            counted,
                            counted,
                            start.space.free,
                            start.space.free,
                            asked.len(),
                            durable.len(),
                            self.pending().len(),
                        );
                    }
                    return Err(error);
                },
            };
            proof {
                self.lemma_wf();
                lemma_entry_bound(self@.pages, chain.tail, self@.page_size);
            }
            let ghost shown = page@;
            page.next_page = gather.fresh[0];
            assert(page@ =~= LedgerView { next: gather.fresh@[0], ..shown });
            let total: usize = self.page_count();
            assert(chain.tail < total);
            match page.encode(self.page_size as usize) {
                Ok(bytes) => {
                    self.write(chain.tail as usize, bytes);
                },
                Err(_) => {},
            }
        }
        self.sync();
        proof {
            assert(tail.subrange(0, fresh.len() as int) =~= fresh);
            assert(self.pending().subrange(0, (durable.len() + fresh.len()) as int) =~= durable
                + fresh);
            lemma_continued(durable, fresh, tail, self.pending());
            assert forall|i: int| 0 <= i < tail.len() implies is_spared(#[trigger] tail[i]) by {
                if i < fresh.len() {
                    assert(tail[i] == fresh[i]);
                }
            }
        }
        self.stage_chain(chain, gather);
        proof {
            let end = self.pending().len();
            let last = MarkView { at: end, free: shown };
            assert(self.marks() =~= counted + seq![last]);
            lemma_marked(counted, seq![last], self.marks(), start.space.free, durable.len(), end);
            lemma_marks_after(
                marks,
                counted,
                self.marks(),
                start.space.free,
                start.space.free,
                asked.len(),
                durable.len(),
                end,
            );
        }
        proof {
            assert(self@ =~= ledger::published(start, chain@, lsn, gather.listing@).1);
        }
        Ok(())
    }

    /// Retires pages that the publication at `lsn` leaves unreachable: lists
    /// them in fresh ledger pages, which only the staged extension names.
    #[verifier::rlimit(100)]
    #[verifier::spinoff_prover]
    pub fn retire_pages(&mut self, superseded: &Vec<u64>, lsn: u64) -> (result: DevonResult<()>)
        requires
            old(self).wf(),
        ensures
            final(self).wf(),
            final(self).on_file() == old(self).on_file(),
            pages_read(final(self).log()) == pages_read(old(self).log()) + ledger::retire_reads(
                old(self)@,
                members(superseded@),
            ),
            marks_extend(old(self).marks(), final(self).marks()),
            unstaging(
                new_marks(old(self).marks(), final(self).marks()),
                old(self)@.free,
                old(self).pending().len(),
                final(self).pending().len(),
            ),
            result is Ok ==> {
                &&& final(self).marks().len() > old(self).marks().len()
                &&& final(self).marks().last().at == final(self).pending().len()
            },
            ({
                let (failure, after) = ledger::retire(old(self)@, members(superseded@), lsn);
                &&& final(self)@ == after
                &&& match result {
                    Ok(()) => failure is None,
                    Err(error) => failure == Some(error.kind_of()),
                }
            }),
            extends(old(self).pending(), final(self).pending()),
            exists|cut: Seq<ActionView>, counts: Seq<ActionView>| #[trigger]
                retire_actions(
                    old(self)@,
                    members(superseded@),
                    lsn,
                    cut,
                    counts,
                    added(old(self).pending(), final(self).pending()),
                ),
            spares_slots(added(old(self).pending(), final(self).pending())),
    {
        let ghost before = self@;
        let ghost gone = members(superseded@);
        let ghost asked = self.pending();
        let ghost none = Seq::<ActionView>::empty();
        let ghost log = pages_read(self.log());
        let ghost marks = self.marks();
        self.compact_free_tail();
        let ghost early = self.marks();
        let ghost shorter = self.pending();
        let ghost cut = added(asked, shorter);
        assert(shorter =~= asked + cut);
        let ghost compacted = self@;
        let chain: Chain = self.unlink_consumed();
        let ghost start = self@;
        proof {
            ledger::lemma_compact_stages(before);
            ledger::lemma_unlink_stages(compacted);
            lemma_no_marks(start.free, shorter.len(), shorter.len());
            assert(early =~= early + Seq::<MarkView>::empty());
            lemma_marked(early, Seq::empty(), early, start.free, shorter.len(), shorter.len());
            lemma_marks_after(
                marks,
                early,
                early,
                before.free,
                start.free,
                asked.len(),
                shorter.len(),
                shorter.len(),
            );
        }
        let ghost walked = ledger::compact_reads(before) + ledger::unlink_reads(compacted);
        assert(pages_read(self.log()) =~= log + walked);
        proof {
            assert((chain@, start) == ledger::unlink(ledger::compact(before)));
        }
        let mut listing: Vec<u64> = Vec::new();
        let mut deferred: Vec<u64> = Vec::new();
        sorted::insert_all(&mut deferred, self.free.deferred_reuse.as_slice());
        sorted::insert_all(&mut listing, superseded.as_slice());
        sorted::insert_all(&mut listing, chain.unlinked.as_slice());
        sorted::insert_all(&mut listing, deferred.as_slice());
        let ghost want = ledger::retired_set(before, gone);
        proof {
            assert forall|id: u64| #[trigger] listing@.contains(id) <==> want.contains(id) by {}
            assert(members(listing@) =~= want);
            assert(members(deferred@) =~= start.free.deferred);
            ledger::lemma_list_of(listing@, want);
        }
        if listing.len() > 0 && listing[0] < SUPERBLOCK_SLOTS {
            assert(listing@.contains(listing@[0]));
            proof {
                lemma_retired_early(before, gone, lsn, asked, cut, none, shorter);
            }
            return Err(
                invalid_argument("cannot retire a superblock page into the free-page ledger"),
            );
        }
        proof {
            assert forall|id: u64| #[trigger] want.contains(id) implies id >= SUPERBLOCK_SLOTS by {
                assert(listing@.contains(id));
                let j = choose|j: int| 0 <= j < listing@.len() && listing@[j] == id;
                if j > 0 {
                    assert(listing@[0] < listing@[j]);
                }
            }
        }
        if listing.len() == 0 {
            assert(want =~= Set::<u64>::empty());
            self.restage_chain();
            proof {
                let counts = added(shorter, self.pending());
                assert(self.pending() =~= asked + cut + counts);
                assert(pages_read(self.log()) =~= log + (walked + ledger::flush_reads(start)));
                lemma_marks_after(
                    marks,
                    early,
                    self.marks(),
                    before.free,
                    start.free,
                    asked.len(),
                    shorter.len(),
                    self.pending().len(),
                );
                lemma_retired_early(before, gone, lsn, asked, cut, counts, self.pending());
            }
            return Ok(());
        }
        proof {
            assert(want.contains(listing@[0]));
        }
        let mut gather = Gather { listing, deferred, fresh: Vec::new() };
        let ghost begin = gathered(start, gather);
        proof {
            assert(begin =~= GatherView {
                space: start,
                listing: want,
                deferred: start.free.deferred,
                fresh: Seq::empty(),
            });
        }
        proof {
            self.lemma_wf();
        }
        let complete: bool = self.gather_ledger_pages(&chain, &mut gather);
        let ghost full = gathered(self@, gather);
        let ghost enlarged = self.pending();
        let ghost steps = ledger::chunk_count(want.len(), before.page_size);
        let ghost gathering = walked + ledger::gather_reads(begin, chain@, steps);
        assert(pages_read(self.log()) =~= log + gathering);
        let total: usize = self.page_count();
        assert(full.space.pages.len() == total);
        let ghost grown = zero_writes(
            start.pages.len() as int,
            (self@.pages.len() - start.pages.len()) as nat,
            start.page_size,
        );
        proof {
            ledger::lemma_gather_stages(begin, chain@, steps);
        }
        if !complete {
            proof {
                lemma_marks_widen(
                    marks,
                    early,
                    before.free,
                    asked.len(),
                    asked.len(),
                    enlarged.len(),
                );
                lemma_retired(before, gone, lsn, asked, cut, none, none, enlarged);
            }
            return Err(invalid_argument("page run end overflows u64"));
        }
        proof {
            ledger::lemma_list_of(gather.listing@, full.listing);
        }
        let ghost listing = gather.listing@;
        let result: DevonResult<()> = self.publish_chain(&chain, gather, lsn);
        proof {
            let tail = chain_actions(full, chain@, lsn, listing);
            let counts = choose|counts: Seq<ActionView>| #[trigger]
                makes_counts_durable(full.space, counts) && self.pending() == enlarged + counts
                    + tail && spares_slots(counts);
            lemma_retired(before, gone, lsn, asked, cut, counts, tail, self.pending());
            assert(pages_read(self.log()) =~= log + (gathering + ledger::publish_reads(
                full.space,
                chain@,
            )));
            lemma_marks_widen(
                early,
                self.marks(),
                full.space.free,
                shorter.len(),
                enlarged.len(),
                self.pending().len(),
            );
            lemma_marks_after(
                marks,
                early,
                self.marks(),
                before.free,
                full.space.free,
                asked.len(),
                shorter.len(),
                self.pending().len(),
            );
        }
        result
    }
}

/// Whether the entries of page `k` begin before the last entry.
spec fn starts_before(k: int, capacity: nat, listed: nat) -> bool {
    k * capacity < listed
}

proof fn lemma_chunks_cover(listed: nat, capacity: nat)
    requires
        capacity > 0,
    ensures
        forall|k: int|
            0 <= k < ledger::pages_for(listed, capacity) ==> #[trigger] starts_before(
                k,
                capacity,
                listed,
            ),
{
    let count = ledger::pages_for(listed, capacity) as int;
    let c = capacity as int;
    let top = listed + c - 1;
    vstd::arithmetic::div_mod::lemma_fundamental_div_mod(top, c);
    assert forall|k: int| 0 <= k < count implies #[trigger] starts_before(k, capacity, listed) by {
        assert(k * c <= (count - 1) * c) by (nonlinear_arith)
            requires
                k <= count - 1,
                c > 0,
        ;
        assert((count - 1) * c == c * count - c) by (nonlinear_arith);
        assert(k * capacity == k * c);
    }
}

/// The state once a superblock commit has published the pending chain.
pub open spec fn promoted(free: FreeView) -> FreeView {
    match free.pending {
        Some(extension) => FreeView {
            extension: Some(extension),
            degraded: false,
            pending: None,
            deferred: free.deferred.difference(free.pending_deferred),
            pending_deferred: Set::empty(),
            ..free
        },
        None => free,
    }
}

/// The state once a superblock commit could not be flushed: the slot may be
/// durable, so the count of its chain is a floor from now on.
pub open spec fn flip_failed(free: FreeView) -> FreeView {
    match free.pending {
        Some(extension) => FreeView {
            floor: if extension.retired_total > free.floor {
                extension.retired_total as nat
            } else {
                free.floor
            },
            ..free
        },
        None => free,
    }
}

impl PageSpace {
    /// The chain that a slot page names: the pending one, where it is to be
    /// published, else the current one.
    pub fn slot_extension(&self, include_pending: bool) -> (extension: Option<SuperblockExtension>)
        ensures
            extension == (if include_pending && self@.free.pending is Some {
                self@.free.pending
            } else {
                self@.free.extension
            }),
    {
        if include_pending {
            if let Some(extension) = self.free.pending_extension {
                return Some(extension);
            }
        }
        self.free.extension
    }

    /// Makes the pending chain the current one.
    pub fn promote(&mut self)
        requires
            old(self).wf(),
        ensures
            final(self).wf(),
            final(self).on_file() == old(self).on_file(),
            noted(*final(self), *old(self)),
            final(self).pending() == old(self).pending(),
            final(self)@ == (SpaceView { free: promoted(old(self)@.free), ..old(self)@ }),
    {
        let ghost before = self@;
        if let Some(extension) = self.free.pending_extension {
            self.free.pending_extension = None;
            self.free.extension = Some(extension);
            self.free.degraded = false;
            let mut republished: Vec<u64> = Vec::new();
            std::mem::swap(&mut republished, &mut self.free.pending_deferred_reuse);
            let ghost pool = self.free.deferred_reuse@;
            let mut i: usize = 0;
            while i < republished.len()
                invariant
                    i <= republished@.len(),
                    sorted::ascending(self.free.deferred_reuse@),
                    forall|x: u64| #[trigger]
                        self.free.deferred_reuse@.contains(x) <==> pool.contains(x)
                            && !republished@.subrange(0, i as int).contains(x),
                    self.page_size == old(self).page_size,
                    self.pages == old(self).pages,
                    self.actions == old(self).actions,
                    self.undos == old(self).undos,
                    self.base == old(self).base,
                    self.reads == old(self).reads,
                    self.marks == old(self).marks,
                    self.min_pin == old(self).min_pin,
                    self.truncates == old(self).truncates,
                    self.free.extension == Some(extension),
                    self.free.degraded == false,
                    self.free.pending_extension is None,
                    self.free.consumed_in_session == old(self).free.consumed_in_session,
                    self.free.reused_in_session == old(self).free.reused_in_session,
                    self.free.truncated_in_session == old(self).free.truncated_in_session,
                    self.free.retired_total_floor == old(self).free.retired_total_floor,
                    self.free.pending_deferred_reuse@.len() == 0,
                decreases republished@.len() - i,
            {
                let id: u64 = republished[i];
                let ghost held = self.free.deferred_reuse@;
                sorted::remove(&mut self.free.deferred_reuse, id);
                proof {
                    let part = republished@.subrange(0, i as int);
                    let next = republished@.subrange(0, i + 1);
                    assert(next =~= part.push(id));
                    assert forall|x: u64| #[trigger]
                        self.free.deferred_reuse@.contains(x) <==> pool.contains(x)
                            && !next.contains(x) by {
                        assert(held.contains(x) <==> pool.contains(x) && !part.contains(x));
                        if next.contains(x) {
                            let k = choose|k: int| 0 <= k < next.len() && next[k] == x;
                            if k < part.len() {
                                assert(part[k] == x);
                            }
                        }
                        if part.contains(x) {
                            let k = choose|k: int| 0 <= k < part.len() && part[k] == x;
                            assert(next[k] == x);
                        }
                        if x == id {
                            assert(next[i as int] == x);
                        }
                    }
                }
                i += 1;
            }
            proof {
                assert(republished@.subrange(0, republished@.len() as int) =~= republished@);
                assert(self@ =~= SpaceView { free: promoted(before.free), ..before });
            }
        } else {
            assert(self@ =~= before);
        }
    }

    /// Keeps the count of a chain whose slot may or may not be durable.
    pub fn note_failed_flip(&mut self)
        requires
            old(self).wf(),
        ensures
            final(self).wf(),
            final(self).on_file() == old(self).on_file(),
            noted(*final(self), *old(self)),
            final(self).pending() == old(self).pending(),
            final(self)@ == (SpaceView { free: flip_failed(old(self)@.free), ..old(self)@ }),
    {
        if let Some(pending) = self.free.pending_extension {
            if pending.retired_total > self.free.retired_total_floor {
                self.free.retired_total_floor = pending.retired_total;
            }
        }
        assert(self@ =~= SpaceView { free: flip_failed(old(self)@.free), ..old(self)@ });
    }

    /// Raises the pin horizon; a lower candidate is ignored.
    pub fn raise_min_pin(&mut self, candidate: u64)
        requires
            old(self).wf(),
        ensures
            final(self).wf(),
            final(self).on_file() == old(self).on_file(),
            noted(*final(self), *old(self)),
            final(self).pending() == old(self).pending(),
            final(self)@ == (SpaceView {
                min_pin: if candidate > old(self)@.min_pin {
                    candidate as nat
                } else {
                    old(self)@.min_pin
                },
                ..old(self)@
            }),
    {
        if candidate > self.min_pin {
            self.min_pin = candidate;
        }
    }

    /// The pin horizon.
    pub fn min_pin(&self) -> (pin: u64)
        ensures
            pin == self@.min_pin,
    {
        self.min_pin
    }

    /// The pages handed out again, the pages cut off, and whether the chain
    /// was abandoned.
    pub fn session_counts(&self) -> (counts: (u64, u64, bool))
        ensures
            counts.0 == self@.free.reused,
            counts.1 == self@.free.truncated,
            counts.2 == self@.free.degraded,
    {
        (self.free.reused_in_session, self.free.truncated_in_session, self.free.degraded)
    }
}

/// A retirement of which not all actions could be done stages nothing: the chain that was staged
/// before it is staged again. One that was all done stays staged, whatever comes after it fails.
pub proof fn law_failed_retirement_is_unstaged(
    before: FreeView,
    after: FreeView,
    marks: Seq<MarkView>,
    from: nat,
    to: nat,
    done: nat,
)
    requires
        unstaging(marks, before, from, to),
        marks.len() > 0,
        marks.last().at == to,
    ensures
        done < to ==> stages_same(fallen_back(after, marks, done), before),
        done >= to ==> fallen_back(after, marks, done) == after,
    decreases marks.len(),
{
    reveal(unstaging);
    assert(stages_same(marks[0].free, before));
    if marks.len() > 1 {
        let rest = marks.skip(1);
        assert(rest.last() == marks.last());
        assert forall|i: int| 0 <= i < rest.len() implies stages_same(
            (#[trigger] rest[i]).free,
            before,
        ) && from <= rest[i].at <= to by {
            assert(rest[i] == marks[i + 1]);
        }
        law_failed_retirement_is_unstaged(before, after, rest, from, to, done);
    } else {
        assert(marks.skip(1) =~= Seq::empty());
    }
}

} // verus!
