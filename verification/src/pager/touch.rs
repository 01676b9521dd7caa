//! What an operation on pages does to the cache: the ledger pages that it reads are cached and
//! counted as any page is, and the pages that it writes lose their frames.

use vstd::prelude::*;

use crate::budget::MemoryBudget;
use crate::pager;
use crate::pager::cache;
use crate::pager::cache::{PageCache, Touch};
use crate::pager::ledger;
use crate::pager::space;
use crate::pager::space::{Action, ActionView};
use crate::pager::Pager;

verus! {

/// How a read touches the cache: not at all where the page is gone in the end.
pub open spec fn read_touch(id: u64, pages: Seq<Seq<u8>>) -> Seq<Touch> {
    if ledger::reusable(pages.len(), id) {
        seq![Touch::Read { page: id, data: pages[id as int] }]
    } else {
        Seq::empty()
    }
}

/// How an action touches the cache.
pub open spec fn action_touch(action: ActionView) -> Seq<Touch> {
    match action {
        ActionView::Write { page, .. } => seq![Touch::Written { page }],
        ActionView::Sync => Seq::empty(),
        ActionView::Truncate { pages } => seq![Touch::Cut { pages }],
    }
}

/// How reads from the `r`-th and actions from the `i`-th on touch the cache: each read before the
/// actions that were not yet asked for then. `pages` are the pages in the end.
pub open spec fn touches_of(
    log: Seq<(usize, u64)>,
    actions: Seq<ActionView>,
    pages: Seq<Seq<u8>>,
    r: nat,
    i: nat,
) -> Seq<Touch>
    decreases log.len() - r, actions.len() - i,
{
    if r < log.len() && (i >= actions.len() || log[r as int].0 <= i) {
        read_touch(log[r as int].1, pages) + touches_of(log, actions, pages, r + 1, i)
    } else if i < actions.len() {
        action_touch(actions[i as int]) + touches_of(log, actions, pages, r, i + 1)
    } else {
        Seq::empty()
    }
}

/// The read count after more reads; it wraps.
pub open spec fn counted(reads: u64, more: nat) -> u64
    decreases more,
{
    if more == 0 {
        reads
    } else {
        counted(reads, (more - 1) as nat).wrapping_add(1)
    }
}

/// Whether the cache and the read count are those that reads and actions leave, given which frames
/// are pinned at each.
pub open spec fn touched(
    before: Pager,
    after: Pager,
    log: Seq<(usize, u64)>,
    room: int,
    pins: Seq<Seq<bool>>,
) -> bool {
    &&& after.reads() == counted(before.reads(), log.len())
    &&& after.clock() == if before.caches() {
        cache::touches_to(
            before.clock(),
            touches_of(
                log,
                after.pending(),
                after.space_of().pages,
                0,
                before.pending().len(),
            ),
            pins,
            before.frame_cost() as int,
            room,
        )
    } else {
        before.clock()
    }
}

/// Whether a frame holds its page as it is now, or as it is in the end.
pub open spec fn frame_known(
    frame: cache::FrameView,
    now: Seq<Seq<u8>>,
    end: Seq<Seq<u8>>,
) -> bool {
    pager::frame_true(frame, now) || pager::frame_true(frame, end)
}

/// One touch more.
proof fn lemma_touched_more(
    clock: cache::ClockView,
    touches: Seq<Touch>,
    pins: Seq<Seq<bool>>,
    touch: Touch,
    pinned: Seq<bool>,
    charge: int,
    room: int,
)
    requires
        pins.len() == touches.len(),
    ensures
        ({
            let before = cache::touches_to(clock, touches, pins, charge, room);
            let left = room - (before.frames.len() - clock.frames.len()) * charge;
            cache::touches_to(clock, touches.push(touch), pins.push(pinned), charge, room)
                == cache::touch_to(before, touch, pinned, charge, left)
        }),
{
    let more = touches.push(touch);
    assert(more.drop_last() =~= touches);
    lemma_pins_unused(clock, touches, pins, pins.push(pinned), charge, room);
}

proof fn lemma_pins_unused(
    clock: cache::ClockView,
    touches: Seq<Touch>,
    a: Seq<Seq<bool>>,
    b: Seq<Seq<bool>>,
    charge: int,
    room: int,
)
    requires
        touches.len() <= a.len(),
        touches.len() <= b.len(),
        forall|k: int| 0 <= k < touches.len() ==> a[k] == b[k],
    ensures
        cache::touches_to(clock, touches, a, charge, room) == cache::touches_to(
            clock,
            touches,
            b,
            charge,
            room,
        ),
    decreases touches.len(),
{
    if touches.len() > 0 {
        lemma_pins_unused(clock, touches.drop_last(), a, b, charge, room);
    }
}

/// A write alone drops its page's frame, and is no read.
pub proof fn lemma_one_write(
    before: Pager,
    after: Pager,
    page: u64,
    room: int,
    pins: Seq<Seq<bool>>,
)
    requires
        touched(before, after, Seq::empty(), room, pins),
        after.pending().len() == before.pending().len() + 1,
        after.pending().last() matches ActionView::Write { page: written, .. } && written == page,
        !before.caches() ==> before.frames().len() == 0,
    ensures
        after.reads() == before.reads(),
        after.clock() == cache::invalidated(before.clock(), page),
{
    let log = Seq::<(usize, u64)>::empty();
    let actions = after.pending();
    let pages = after.space_of().pages;
    let n = before.pending().len();
    assert(touches_of(log, actions, pages, 0, n + 1) =~= Seq::empty());
    let all = touches_of(log, actions, pages, 0, n);
    assert(all =~= seq![Touch::Written { page }]);
    assert(all.drop_last() =~= Seq::empty());
    assert(cache::touches_to(
        before.clock(),
        all.drop_last(),
        pins,
        before.frame_cost() as int,
        room,
    ) == before.clock());
}

impl Pager {
    /// Does to the cache and the read count what the reads of ledger pages and the actions from
    /// the `start`-th on do to them.
    pub(crate) fn settle_touches(
        &mut self,
        start: usize,
        budget: &mut MemoryBudget,
        Ghost(before): Ghost<Pager>,
    )
        requires
            old(self).wf_but_frames(),
            before.wf(),
            old(self).clock() == before.clock(),
            old(self).caches() == before.caches(),
            old(self).reads() == before.reads(),
            old(self).on_file() == before.on_file(),
            old(self).space_of().page_size == before.space_of().page_size,
            start == before.pending().len(),
            space::extends(before.pending(), old(self).pending()),
            before.within(*old(budget)),
        ensures
            final(self).wf(),
            pager::same_but_cache(*final(self), *old(self)),
            final(self).within(*final(budget)),
            final(budget).limit_of() == old(budget).limit_of(),
            final(self).other_charges(*final(budget)) == before.other_charges(*old(budget)),
            exists|pins: Seq<Seq<bool>>| #[trigger]
                touched(before, *final(self), old(self).ledger_log(), old(budget).room(), pins),
    {
        let ghost actions = self.pending();
        let ghost end = self.space_of().pages;
        let ghost size = self.space_of().page_size;
        let ghost file = self.on_file();
        let ghost clock = before.clock();
        let ghost cost = before.frame_cost() as int;
        let ghost room = budget.room();
        let ghost mut touches: Seq<Touch> = Seq::empty();
        let ghost mut pins: Seq<Seq<bool>> = Seq::empty();
        let reads: Vec<(usize, u64)> = self.space.take_reads();
        let ghost log = reads@;
        assert(log == old(self).ledger_log());
        let ghost all = touches_of(log, actions, end, 0, start as nat);
        let total: usize = self.space.actions().len();
        let mut i: usize = start;
        let mut r: usize = 0;
        proof {
            self.space.lemma_wf();
            before.lemma_wf();
            assert(actions.subrange(0, start as int) == before.pending());
            assert(actions.subrange(0, actions.len() as int) =~= actions);
            assert(all =~= touches + all);
        }
        let mut cache: Option<PageCache> = self.cache.take();
        proof {
            if cache is Some {
                assert(cache->0.table.clock() == clock);
                assert forall|k: int| 0 <= k < cache->0.table.shown().len() implies frame_known(
                    #[trigger] cache->0.table.shown()[k],
                    space::replayed(file, actions.subrange(0, i as int), size),
                    end,
                ) by {
                    assert(before.frames()[k] == cache->0.table.shown()[k]);
                }
            }
        }
        while r < reads.len() || i < total
            invariant
                r <= log.len(),
                log == reads@,
                start <= i <= total == actions.len(),
                self.space.wf(),
                self.space.pending() == actions,
                self.space@ == old(self).space@,
                self.space.on_file() == file,
                self.space.marks() == old(self).space.marks(),
                self.space.log().len() == 0,
                self.superblock == old(self).superblock,
                self.slot == old(self).slot,
                self.wrote_zone_maps == old(self).wrote_zone_maps,
                self.wrote_column_encodings == old(self).wrote_column_encodings,
                self.page_reads == counted(before.reads(), r as nat),
                end == self.space@.pages,
                size == self.space@.page_size,
                cost == before.frame_cost(),
                clock == before.clock(),
                room == old(budget).room(),
                budget.limit_of() == old(budget).limit_of(),
                all == touches_of(log, actions, end, 0, start as nat),
                all == touches + touches_of(log, actions, end, r as nat, i as nat),
                pins.len() == touches.len(),
                cache is Some == before.caches(),
                cache is None ==> budget.charged_of() == old(budget).charged_of(),
                cache matches Some(held) ==> {
                    &&& held.table.wf()
                    &&& held.within(*budget)
                    &&& held.frame_charge == cost
                    &&& held.others(*budget) == before.other_charges(*old(budget))
                    &&& held.table.clock() == cache::touches_to(clock, touches, pins, cost, room)
                    &&& forall|k: int|
                        0 <= k < held.table.shown().len() ==> frame_known(
                            #[trigger] held.table.shown()[k],
                            space::replayed(file, actions.subrange(0, i as int), size),
                            end,
                        )
                },
            decreases log.len() - r + total - i,
        {
            let read: bool = r < reads.len() && (i >= total || reads[r].0 <= i);
            let mut held: Option<PageCache> = cache.take();
            let ghost now = space::replayed(file, actions.subrange(0, i as int), size);
            if read {
                let id: u64 = reads[r].1;
                self.page_reads = self.page_reads.wrapping_add(1);
                let count: usize = self.space.page_count();
                if id >= 2 && id < count as u64 {
                    let ghost touch = Touch::Read { page: id, data: end[id as int] };
                    let ghost mut pinned: Seq<bool> = Seq::empty();
                    if let Some(mut kept) = held {
                        let ghost prior = kept;
                        let ghost left = budget.room();
                        let data: Vec<u8> = self.space.page(id as usize).clone();
                        assert(data@ =~= end[id as int]);
                        kept.note_read(id, data, budget);
                        proof {
                            let found = choose|pinned: Seq<bool>|
                                pinned.len() == prior.table.shown().len() && kept.table.clock()
                                    == #[trigger] cache::read_to(
                                    prior.table.clock(),
                                    id,
                                    end[id as int],
                                    pinned,
                                    cost,
                                    left,
                                );
                            pinned = found;
                            lemma_room(before, prior, *old(budget), left, cost);
                            lemma_touched_more(clock, touches, pins, touch, found, cost, room);
                            assert forall|k: int|
                                0 <= k < kept.table.shown().len() implies frame_known(
                                #[trigger] kept.table.shown()[k],
                                now,
                                end,
                            ) by {
                                let frame = kept.table.shown()[k];
                                if cache::has_frame(prior.table, frame.page_id, frame.data) {
                                    let j = choose|j: int|
                                        0 <= j < prior.table.shown().len() && (
                                        #[trigger] prior.table.shown()[j]).page_id == frame.page_id
                                            && prior.table.shown()[j].data == frame.data;
                                    assert(frame_known(prior.table.shown()[j], now, end));
                                }
                            }
                        }
                        held = Some(kept);
                    }
                    proof {
                        touches = touches.push(touch);
                        pins = pins.push(pinned);
                    }
                }
                proof {
                    assert(all =~= touches + touches_of(
                        log,
                        actions,
                        end,
                        (r + 1) as nat,
                        i as nat,
                    ));
                }
                r += 1;
            } else {
                let ghost action = actions[i as int];
                let ghost next = space::replayed(file, actions.subrange(0, i + 1), size);
                proof {
                    let part = actions.subrange(0, i + 1);
                    assert(part.drop_last() =~= actions.subrange(0, i as int));
                    assert(part.last() == action);
                    assert(next == space::performed(now, action, size));
                    assert(self.space.pending()[i as int] == action);
                    self.space.lemma_prefix(i as int);
                    assert(space::fits(now, action));
                }
                let (written, cut): (Option<u64>, Option<u64>) = match &self.space.actions()[i] {
                    Action::Write { page, data: _ } => (Some(*page), None),
                    Action::Sync => (None, None),
                    Action::Truncate { pages } => (None, Some(*pages)),
                };
                if let Some(mut kept) = held {
                    let ghost prior = kept;
                    let ghost left = budget.room();
                    if let Some(page) = written {
                        kept.invalidate(page, budget);
                    }
                    if let Some(pages) = cut {
                        kept.cut(pages, budget);
                    }
                    proof {
                        if action_touch(action).len() > 0 {
                            lemma_touched_more(
                                clock,
                                touches,
                                pins,
                                action_touch(action)[0],
                                Seq::empty(),
                                cost,
                                room,
                            );
                        }
                        assert forall|k: int|
                            0 <= k < kept.table.shown().len() implies frame_known(
                            #[trigger] kept.table.shown()[k],
                            next,
                            end,
                        ) by {
                            let frame = kept.table.shown()[k];
                            if frame_known(frame, now, end) && !pager::frame_true(frame, end) {
                                assert(pager::frame_true(frame, now));
                            }
                            if written is Some || cut is Some {
                                assert(cache::has_frame(prior.table, frame.page_id, frame.data));
                                let j = choose|j: int|
                                    0 <= j < prior.table.shown().len() && (
                                    #[trigger] prior.table.shown()[j]).page_id == frame.page_id
                                        && prior.table.shown()[j].data == frame.data;
                                assert(frame_known(prior.table.shown()[j], now, end));
                                if written is Some {
                                    assert(frame.page_id != written->0) by {
                                        if frame.page_id == written->0 {
                                            assert(kept.table.holds(written->0));
                                        }
                                    }
                                }
                            } else {
                                assert(frame_known(prior.table.shown()[k], now, end));
                            }
                        }
                    }
                    held = Some(kept);
                }
                proof {
                    if action_touch(action).len() > 0 {
                        touches = touches.push(action_touch(action)[0]);
                        pins = pins.push(Seq::empty());
                    }
                    assert(all =~= touches + touches_of(
                        log,
                        actions,
                        end,
                        r as nat,
                        (i + 1) as nat,
                    ));
                }
                i += 1;
            }
            cache = held;
        }
        proof {
            assert(touches_of(log, actions, end, r as nat, i as nat) =~= Seq::empty());
            assert(all =~= touches);
        }
        self.cache = cache;
        proof {
            if self.cache is Some {
                assert forall|k: int| 0 <= k < self.frames().len() implies pager::frame_true(
                    #[trigger] self.frames()[k],
                    end,
                ) by {
                    assert(frame_known(self.cache->0.table.shown()[k], end, end));
                }
            }
            assert(touched(before, *self, log, room, pins));
        }
    }
}

/// The room of the budget, by the frames.
proof fn lemma_room(
    before: Pager,
    cache: PageCache,
    budget: MemoryBudget,
    left: int,
    cost: int,
)
    requires
        before.caches(),
        cost == before.frame_cost(),
        cache.frame_charge == cost,
        left == budget.limit_of() - (before.other_charges(budget) + cache.charges()),
    ensures
        left == budget.room() - (cache.table.shown().len() - before.frames().len()) * cost,
{
    let a = cache.table.shown().len() as int;
    let b = before.frames().len() as int;
    assert((a - b) * cost == a * cost - b * cost) by (nonlinear_arith);
}

} // verus!
