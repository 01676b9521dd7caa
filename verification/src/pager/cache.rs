//! The budgeted page cache: frames in clock order with second chances.

use std::sync::Arc;

use vstd::prelude::*;

use crate::budget::MemoryBudget;
use crate::shared::share;

verus! {

/// Bytes that a frame is charged beside its page.
pub const FRAME_OVERHEAD: usize = 64;

/// Frames that eviction leaves.
pub const MIN_CACHE_FRAMES: usize = 8;

/// An immutable page buffer. Holding one pins its cache frame.
#[derive(Debug)]
pub struct PageRef(Arc<Vec<u8>>);

impl View for PageRef {
    type V = Seq<u8>;

    closed spec fn view(&self) -> Seq<u8> {
        self.0@
    }
}

/// `std::sync::Arc::strong_count`: how many pointers to the page exist.
/// Nothing is claimed: that depends on what the readers still hold.
#[verifier::external_body]
fn holders(page: &Arc<Vec<u8>>) -> usize {
    Arc::strong_count(page)
}

impl PageRef {
    /// A buffer of its own.
    pub fn from_vec(page: Vec<u8>) -> (buffer: PageRef)
        ensures
            buffer@ == page@,
    {
        PageRef(Arc::new(page))
    }

    /// Another hold on the same buffer.
    pub fn pin(&self) -> (other: PageRef)
        ensures
            other@ == self@,
    {
        PageRef(share(&self.0))
    }

    /// The bytes of the page.
    pub fn bytes(&self) -> (bytes: &Vec<u8>)
        ensures
            bytes@ == self@,
    {
        &self.0
    }

    /// The shared buffer.
    pub fn shared(&self) -> (buffer: &Arc<Vec<u8>>)
        ensures
            buffer@ == self@,
    {
        &self.0
    }

    fn holds(&self) -> usize {
        holders(&self.0)
    }
}

/// Which frames are pinned, given how many holds there are on each: all but those that only the
/// table itself holds.
pub fn pins_of(counts: &Vec<usize>) -> (pinned: Vec<bool>)
    ensures
        pinned@ == counts@.map_values(|count: usize| count != 1),
{
    let mut pinned: Vec<bool> = Vec::new();
    let mut at: usize = 0;
    while at < counts.len()
        invariant
            at <= counts@.len(),
            pinned@ == counts@.subrange(0, at as int).map_values(|count: usize| count != 1),
        decreases counts@.len() - at,
    {
        pinned.push(counts[at] != 1);
        at += 1;
        assert(pinned@ =~= counts@.subrange(0, at as int).map_values(|count: usize| count != 1));
    }
    assert(counts@.subrange(0, at as int) =~= counts@);
    pinned
}

/// One cached page.
#[derive(Debug)]
pub struct Frame {
    pub page_id: u64,
    pub data: PageRef,
    pub referenced: bool,
}

/// What a frame holds.
pub struct FrameView {
    pub page_id: u64,
    pub data: Seq<u8>,
    pub referenced: bool,
}

impl View for Frame {
    type V = FrameView;

    open spec fn view(&self) -> FrameView {
        FrameView { page_id: self.page_id, data: self.data@, referenced: self.referenced }
    }
}

/// The cached frames in clock order, and the clock hand.
#[derive(Debug)]
pub struct FrameTable {
    frames: Vec<Frame>,
    hand: usize,
}

/// The position that the hand reaches after `k` steps.
pub open spec fn clock_at(hand: int, k: int, size: nat) -> int {
    (hand + k) % size as int
}

/// Whether `k` is the step at which the first round of the clock stops: the
/// first frame that is neither referenced nor pinned.
pub open spec fn first_round(
    frames: Seq<FrameView>,
    hand: int,
    pinned: Seq<bool>,
    k: int,
) -> bool {
    &&& 0 <= k < frames.len()
    &&& stops(frames, hand, pinned, k)
    &&& forall|j: int| 0 <= j < k ==> !#[trigger] stops(frames, hand, pinned, j)
}

/// Whether the clock stops at step `k`.
pub open spec fn stops(frames: Seq<FrameView>, hand: int, pinned: Seq<bool>, k: int) -> bool {
    let at = clock_at(hand, k, frames.len());
    !frames[at].referenced && !pinned[at]
}

/// Whether `k` is the step at which the second round stops: the first frame
/// that is not pinned, all having lost their second chance.
pub open spec fn second_round(size: nat, hand: int, pinned: Seq<bool>, k: int) -> bool {
    &&& 0 <= k < size
    &&& !pinned[clock_at(hand, k, size)]
    &&& forall|j: int| 0 <= j < k ==> pinned[#[trigger] clock_at(hand, j, size)]
}

/// The frames in clock order, and where the hand stands.
#[verifier::ext_equal]
pub struct ClockView {
    pub frames: Seq<FrameView>,
    pub hand: int,
}

/// After how many steps the hand reaches a position.
pub open spec fn steps_to(hand: int, at: int, size: nat) -> int {
    if at >= hand {
        at - hand
    } else {
        at - hand + size
    }
}

/// The frames once the hand has gone `k` steps: those that it passed have lost their second
/// chance.
pub open spec fn passed(frames: Seq<FrameView>, hand: int, k: int) -> Seq<FrameView> {
    Seq::new(
        frames.len(),
        |i: int|
            if steps_to(hand, i, frames.len()) < k {
                FrameView { referenced: false, ..frames[i] }
            } else {
                frames[i]
            },
    )
}

/// The clock once the frame at which the hand stands is taken out.
pub open spec fn taken_out(frames: Seq<FrameView>, at: int) -> ClockView {
    ClockView {
        frames: frames.remove(at),
        hand: if at == frames.len() - 1 {
            0
        } else {
            at
        },
    }
}

/// One eviction, given which frames are pinned: the position of the frame that leaves, if one
/// does, and the clock. Too few frames are left alone. The hand goes round at most twice: it stops
/// at the first frame that is neither referenced nor pinned, or in the second round, when no frame
/// has its second chance any more, at the first that is not pinned.
pub open spec fn evict(clock: ClockView, pinned: Seq<bool>) -> (Option<int>, ClockView) {
    let frames = clock.frames;
    let hand = clock.hand;
    let size = frames.len();
    if size < MIN_CACHE_FRAMES {
        (None, clock)
    } else if exists|k: int| first_round(frames, hand, pinned, k) {
        let k = choose|k: int| first_round(frames, hand, pinned, k);
        let at = clock_at(hand, k, size);
        (Some(at), taken_out(passed(frames, hand, k), at))
    } else {
        let spent = passed(frames, hand, size as int);
        if exists|k: int| second_round(size, hand, pinned, k) {
            let at = clock_at(hand, choose|k: int| second_round(size, hand, pinned, k), size);
            (Some(at), taken_out(spent, at))
        } else {
            (None, ClockView { frames: spent, hand })
        }
    }
}

/// Evictions until `bytes` are given back, each frame giving back `charge`, or until none
/// happens; given which frames are pinned.
pub open spec fn shed_to(clock: ClockView, pinned: Seq<bool>, charge: int, bytes: int) -> ClockView
    decreases clock.frames.len(),
{
    if bytes <= 0 {
        clock
    } else {
        match evict(clock, pinned) {
            (Some(at), after) => {
                proof {
                    lemma_evict_shrinks(clock, pinned);
                }
                shed_to(after, pinned.remove(at), charge, bytes - charge)
            },
            (None, after) => after,
        }
    }
}

/// Evictions until a frame's charge fits into the room of the budget, or until none happens;
/// given which frames are pinned. Whether it fits, and the clock.
pub open spec fn charge_to(clock: ClockView, pinned: Seq<bool>, charge: int, room: int) -> (
    bool,
    ClockView,
)
    decreases clock.frames.len(),
{
    if charge <= room {
        (true, clock)
    } else {
        match evict(clock, pinned) {
            (Some(at), after) => {
                proof {
                    lemma_evict_shrinks(clock, pinned);
                }
                charge_to(after, pinned.remove(at), charge, room + charge)
            },
            (None, after) => (false, after),
        }
    }
}

/// Whether a page has a frame.
pub open spec fn has_page(frames: Seq<FrameView>, page_id: u64) -> bool {
    exists|i: int| 0 <= i < frames.len() && (#[trigger] frames[i]).page_id == page_id
}

/// The clock once a page was read: a page that has a frame gets its second chance back; another
/// gets a frame if its charge fits, frames that are not pinned making room.
pub open spec fn read_to(
    clock: ClockView,
    page_id: u64,
    data: Seq<u8>,
    pinned: Seq<bool>,
    charge: int,
    room: int,
) -> ClockView {
    if has_page(clock.frames, page_id) {
        let i = choose|i: int|
            0 <= i < clock.frames.len() && (#[trigger] clock.frames[i]).page_id == page_id;
        ClockView {
            frames: clock.frames.update(i, FrameView { referenced: true, ..clock.frames[i] }),
            ..clock
        }
    } else {
        let (fits, after) = charge_to(clock, pinned, charge, room);
        if fits {
            ClockView {
                frames: after.frames.push(FrameView { page_id, data, referenced: true }),
                ..after
            }
        } else {
            after
        }
    }
}

/// The clock once the frame at a position is dropped: the hand stays at its frame, or goes on to the
/// next where that is the one.
pub open spec fn dropped(clock: ClockView, at: int) -> ClockView {
    ClockView {
        frames: clock.frames.remove(at),
        hand: if clock.frames.len() == 1 {
            0
        } else if at < clock.hand {
            clock.hand - 1
        } else if clock.hand == clock.frames.len() - 1 {
            0
        } else {
            clock.hand
        },
    }
}

/// The clock once a page was written: its frame is dropped, the others stay in order.
pub open spec fn invalidated(clock: ClockView, page_id: u64) -> ClockView {
    if has_page(clock.frames, page_id) {
        let at = choose|i: int|
            0 <= i < clock.frames.len() && (#[trigger] clock.frames[i]).page_id == page_id;
        dropped(clock, at)
    } else {
        clock
    }
}

/// The clock once the file was cut off: of the frames from a position on, those of pages that are
/// gone are dropped, the others stay in order.
pub open spec fn cut_to(clock: ClockView, pages: u64, at: int) -> ClockView
    decreases clock.frames.len() - at,
{
    if at < 0 || at >= clock.frames.len() {
        clock
    } else if clock.frames[at].page_id >= pages {
        cut_to(dropped(clock, at), pages, at)
    } else {
        cut_to(clock, pages, at + 1)
    }
}

/// What is done to a page that the cache may hold.
#[verifier::ext_equal]
pub enum Touch {
    /// The page is read; it holds these bytes.
    Read { page: u64, data: Seq<u8> },
    /// The page is written.
    Written { page: u64 },
    /// The file is cut off behind this many pages.
    Cut { pages: u64 },
}

/// The clock once a page is touched, given which frames are pinned.
pub open spec fn touch_to(
    clock: ClockView,
    touch: Touch,
    pinned: Seq<bool>,
    charge: int,
    room: int,
) -> ClockView {
    match touch {
        Touch::Read { page, data } => read_to(clock, page, data, pinned, charge, room),
        Touch::Written { page } => invalidated(clock, page),
        Touch::Cut { pages } => cut_to(clock, pages, 0),
    }
}

/// The clock once pages are touched one after the other, given which frames are pinned at each.
pub open spec fn touches_to(
    clock: ClockView,
    touches: Seq<Touch>,
    pins: Seq<Seq<bool>>,
    charge: int,
    room: int,
) -> ClockView
    decreases touches.len(),
{
    if touches.len() == 0 {
        clock
    } else {
        let before = touches_to(clock, touches.drop_last(), pins, charge, room);
        let left = room - (before.frames.len() - clock.frames.len()) * charge;
        touch_to(before, touches.last(), pins[touches.len() - 1], charge, left)
    }
}

/// What holds of the frames after shedding, whatever was pinned: no more of them left than the
/// bytes asked for, and none below the floor. Where they give back less than was asked for, the
/// floor is reached, or every frame left has lost its second chance.
pub open spec fn shed_bounds(before: nat, after: Seq<FrameView>, charge: int, bytes: int) -> bool {
    &&& after.len() <= before
    &&& after.len() < before ==> after.len() + 1 >= MIN_CACHE_FRAMES && (before - after.len() - 1)
        * charge < bytes
    &&& (before - after.len()) * charge < bytes ==> after.len() < MIN_CACHE_FRAMES || forall|i: int|
        0 <= i < after.len() ==> !(#[trigger] after[i]).referenced
}

/// Whether two lists of frames hold the same pages, their second chances
/// aside.
pub open spec fn same_pages(a: Seq<FrameView>, b: Seq<FrameView>) -> bool {
    &&& a.len() == b.len()
    &&& forall|i: int|
        0 <= i < a.len() ==> (#[trigger] a[i]).page_id == b[i].page_id && a[i].data == b[i].data
}

impl FrameTable {
    /// The frames in clock order.
    pub closed spec fn shown(self) -> Seq<FrameView> {
        self.frames@.map_values(|frame: Frame| frame@)
    }

    /// Where the hand stands.
    pub closed spec fn hand_of(self) -> int {
        self.hand as int
    }

    /// The frames and the hand.
    pub open spec fn clock(self) -> ClockView {
        ClockView { frames: self.shown(), hand: self.hand_of() }
    }

    /// No page has two frames, and the hand stands at a frame.
    pub open spec fn wf(self) -> bool {
        &&& forall|i: int, j: int|
            0 <= i < j < self.shown().len() ==> (#[trigger] self.shown()[i]).page_id != (
            #[trigger] self.shown()[j]).page_id
        &&& 0 <= self.hand_of()
        &&& self.shown().len() > 0 ==> self.hand_of() < self.shown().len()
        &&& self.shown().len() == 0 ==> self.hand_of() == 0
    }

    /// Whether the page is cached.
    pub open spec fn holds(self, page_id: u64) -> bool {
        exists|i: int| 0 <= i < self.shown().len() && (#[trigger] self.shown()[i]).page_id == page_id
    }

    /// An empty table.
    pub fn new() -> (table: FrameTable)
        ensures
            table.wf(),
            table.shown().len() == 0,
    {
        let table = FrameTable { frames: Vec::new(), hand: 0 };
        assert(table.shown().len() == 0);
        table
    }

    /// How many frames there are.
    pub fn len(&self) -> (len: usize)
        ensures
            len == self.shown().len(),
    {
        self.frames.len()
    }

    fn find(&self, page_id: u64) -> (found: Option<usize>)
        ensures
            match found {
                Some(at) => at < self.shown().len() && self.shown()[at as int].page_id == page_id,
                None => !self.holds(page_id),
            },
    {
        let mut at: usize = 0;
        while at < self.frames.len()
            invariant
                at <= self.shown().len(),
                self.shown().len() == self.frames@.len(),
                forall|i: int| 0 <= i < at ==> (#[trigger] self.shown()[i]).page_id != page_id,
            decreases self.frames@.len() - at,
        {
            assert(self.shown()[at as int] == self.frames@[at as int]@);
            if self.frames[at].page_id == page_id {
                return Some(at);
            }
            at += 1;
        }
        None
    }

    /// Whether the page is cached.
    pub fn contains(&self, page_id: u64) -> (yes: bool)
        ensures
            yes == self.holds(page_id),
    {
        match self.find(page_id) {
            Some(_) => true,
            None => false,
        }
    }

    /// The cached page, which gets its second chance back.
    pub fn get(&mut self, page_id: u64) -> (found: Option<PageRef>)
        requires
            old(self).wf(),
        ensures
            final(self).wf(),
            same_pages(final(self).shown(), old(self).shown()),
            final(self).hand_of() == old(self).hand_of(),
            match found {
                Some(page) => exists|i: int|
                    0 <= i < old(self).shown().len() && (#[trigger] old(self).shown()[i]).page_id
                        == page_id && page@ == old(self).shown()[i].data && final(self).shown()
                        == old(self).shown().update(
                        i,
                        (FrameView { referenced: true, ..old(self).shown()[i] }),
                    ),
                None => !old(self).holds(page_id) && final(self).shown() == old(self).shown(),
            },
    {
        let ghost before = self.shown();
        match self.find(page_id) {
            None => None,
            Some(at) => {
                let page: PageRef = self.frames[at].data.pin();
                let kept: PageRef = self.frames[at].data.pin();
                assert(before[at as int] == self.frames@[at as int]@);
                self.frames.set(at, Frame { page_id, data: kept, referenced: true });
                assert(self.shown() =~= before.update(
                    at as int,
                    FrameView { referenced: true, ..before[at as int] },
                ));
                Some(page)
            },
        }
    }

    /// Puts a page in that is not cached yet.
    pub fn insert(&mut self, page_id: u64, data: PageRef)
        requires
            old(self).wf(),
            !old(self).holds(page_id),
        ensures
            final(self).wf(),
            final(self).hand_of() == old(self).hand_of(),
            final(self).shown() == old(self).shown().push(
                (FrameView { page_id, data: data@, referenced: true }),
            ),
    {
        let ghost before = self.shown();
        let ghost shown = data@;
        self.frames.push(Frame { page_id, data, referenced: true });
        assert(self.shown() =~= before.push(FrameView { page_id, data: shown, referenced: true }));
    }

    /// Takes the frame at a position out and moves the hand with it.
    fn remove_at(&mut self, at: usize)
        requires
            old(self).wf(),
            at < old(self).shown().len(),
        ensures
            final(self).wf(),
            final(self).shown() == old(self).shown().remove(at as int),
            final(self).hand_of() == (if old(self).shown().len() == 1 {
                0
            } else if at < old(self).hand_of() {
                old(self).hand_of() - 1
            } else if old(self).hand_of() == old(self).shown().len() - 1 {
                0
            } else {
                old(self).hand_of()
            }),
    {
        let ghost before = self.shown();
        let _frame: Frame = self.frames.remove(at);
        proof {
            let after = self.shown();
            assert(after =~= before.remove(at as int));
            assert forall|i: int, j: int| 0 <= i < j < after.len() implies (
            #[trigger] after[i]).page_id != (#[trigger] after[j]).page_id by {
                let p = if i < at {
                    i
                } else {
                    i + 1
                };
                let q = if j < at {
                    j
                } else {
                    j + 1
                };
                assert(after[i] == before[p] && after[j] == before[q]);
            }
        }
        if self.frames.len() == 0 {
            self.hand = 0;
        } else if at < self.hand {
            self.hand = self.hand - 1;
        } else if self.hand == self.frames.len() {
            self.hand = 0;
        }
    }

    /// Takes a page out; whether it was cached.
    pub fn remove(&mut self, page_id: u64) -> (was: bool)
        requires
            old(self).wf(),
        ensures
            final(self).wf(),
            was == old(self).holds(page_id),
            !final(self).holds(page_id),
            !was ==> final(self).shown() == old(self).shown(),
            was ==> exists|at: int|
                0 <= at < old(self).shown().len() && (#[trigger] old(self).shown()[at]).page_id
                    == page_id && final(self).shown() == old(self).shown().remove(at),
            final(self).clock() == invalidated(old(self).clock(), page_id),
    {
        let ghost before = self.shown();
        let ghost clock = self.clock();
        match self.find(page_id) {
            None => {
                assert(!has_page(before, page_id));
                false
            },
            Some(at) => {
                self.remove_at(at);
                proof {
                    assert(before[at as int].page_id == page_id);
                    assert(has_page(before, page_id));
                    let found = choose|i: int|
                        0 <= i < before.len() && (#[trigger] before[i]).page_id == page_id;
                    assert(found == at);
                    assert(self.clock() =~= dropped(clock, at as int));
                    assert forall|i: int| 0 <= i < self.shown().len() implies (
                    #[trigger] self.shown()[i]).page_id != page_id by {
                        let p = if i < at {
                            i
                        } else {
                            i + 1
                        };
                        assert(self.shown()[i] == before[p]);
                        assert(before[at as int].page_id == page_id);
                    }
                    assert(before[at as int].page_id == page_id);
                }
                true
            },
        }
    }

    /// The page and the buffer of the frame at a position.
    pub fn peek(&self, at: usize) -> (found: (u64, PageRef))
        requires
            at < self.shown().len(),
        ensures
            found.0 == self.shown()[at as int].page_id,
            found.1@ == self.shown()[at as int].data,
    {
        assert(self.shown()[at as int] == self.frames@[at as int]@);
        (self.frames[at].page_id, self.frames[at].data.pin())
    }

    /// Whether each frame is pinned, as far as can be seen now.
    fn pins(&self) -> (pinned: Vec<bool>)
        ensures
            pinned@.len() == self.shown().len(),
    {
        let mut counts: Vec<usize> = Vec::new();
        let mut at: usize = 0;
        while at < self.frames.len()
            invariant
                at <= self.frames@.len(),
                counts@.len() == at,
            decreases self.frames@.len() - at,
        {
            counts.push(self.frames[at].data.holds());
            at += 1;
        }
        pins_of(&counts)
    }

    /// Runs the clock for at most two rounds, given which frames are pinned,
    /// and evicts the frame at which it stops; where that stood.
    pub fn evict_with(&mut self, pinned: &Vec<bool>) -> (evicted: Option<usize>)
        requires
            old(self).wf(),
            pinned@.len() == old(self).shown().len(),
        ensures
            final(self).wf(),
            place_of(evicted) == evict(old(self).clock(), pinned@).0,
            final(self).clock() == evict(old(self).clock(), pinned@).1,
            evicted is Some <==> old(self).shown().len() >= MIN_CACHE_FRAMES && exists|at: int|
                0 <= at < pinned@.len() && !#[trigger] pinned@[at],
    {
        let ghost before = self.shown();
        let ghost start = self.hand_of();
        let size: usize = self.frames.len();
        if size < MIN_CACHE_FRAMES {
            return None;
        }
        let mut k: usize = 0;
        proof {
            lemma_clock_value(start, 0, size as nat);
            assert(self.shown() =~= passed(before, start, 0));
        }
        while k < size
            invariant
                k <= size,
                size >= MIN_CACHE_FRAMES,
                before == old(self).shown(),
                start == old(self).hand_of(),
                size == before.len(),
                size == pinned@.len(),
                0 <= start < size,
                self.wf(),
                self.shown() == passed(before, start, k as int),
                self.shown().len() == self.frames@.len(),
                self.hand_of() == clock_at(start, k as int, size as nat),
                forall|j: int|
                    0 <= j < k ==> !(#[trigger] stops(before, start, pinned@, j)),
            decreases size - k,
        {
            let at: usize = self.hand;
            proof {
                lemma_clock_value(start, k as int, size as nat);
                assert(self.shown()[at as int] == self.frames@[at as int]@);
                assert(self.shown()[at as int] == before[at as int]);
            }
            if !self.frames[at].referenced && !pinned[at] {
                proof {
                    assert(stops(before, start, pinned@, k as int));
                    assert(first_round(before, start, pinned@, k as int));
                    let chosen = choose|k: int| first_round(before, start, pinned@, k);
                    assert(first_round(before, start, pinned@, chosen));
                    assert(chosen == k);
                }
                self.remove_at(at);
                assert(!pinned@[at as int]);
                return Some(at);
            }
            if self.frames[at].referenced {
                let ghost held = self.shown();
                let kept: PageRef = self.frames[at].data.pin();
                let page_id: u64 = self.frames[at].page_id;
                self.frames.set(at, Frame { page_id, data: kept, referenced: false });
                proof {
                    assert(self.shown() =~= held.update(
                        at as int,
                        FrameView { referenced: false, ..held[at as int] },
                    ));
                }
            }
            self.hand = (self.hand + 1) % size;
            proof {
                lemma_clock_step(start, k as int, size as nat);
                assert(!stops(before, start, pinned@, k as int));
                assert(self.shown() =~= passed(before, start, k + 1));
            }
            k += 1;
        }
        proof {
            assert forall|j: int| !#[trigger] first_round(before, start, pinned@, j) by {
                if 0 <= j < size {
                    assert(!stops(before, start, pinned@, j));
                }
            }
            lemma_clock_round(start, size as nat);
        }
        self.second_chance_spent(pinned, Ghost(before), Ghost(start))
    }

    /// The second round: every frame has lost its second chance.
    fn second_chance_spent(
        &mut self,
        pinned: &Vec<bool>,
        Ghost(before): Ghost<Seq<FrameView>>,
        Ghost(start): Ghost<int>,
    ) -> (evicted: Option<usize>)
        requires
            old(self).wf(),
            old(self).shown().len() >= MIN_CACHE_FRAMES,
            old(self).shown() == passed(before, start, before.len() as int),
            pinned@.len() == before.len(),
            0 <= start < before.len(),
            old(self).hand_of() == start,
            !exists|k: int| first_round(before, start, pinned@, k),
        ensures
            final(self).wf(),
            evicted is Some <==> exists|at: int| 0 <= at < pinned@.len() && !#[trigger] pinned@[at],
            place_of(evicted) == evict(ClockView { frames: before, hand: start }, pinned@).0,
            final(self).clock() == evict(ClockView { frames: before, hand: start }, pinned@).1,
    {
        let size: usize = self.frames.len();
        let mut k: usize = 0;
        proof {
            lemma_clock_value(start, 0, size as nat);
        }
        while k < size
            invariant
                k <= size,
                size == before.len(),
                size == pinned@.len(),
                size >= MIN_CACHE_FRAMES,
                0 <= start < size,
                self.wf(),
                self.shown() == passed(before, start, size as int),
                self.shown().len() == self.frames@.len(),
                self.hand_of() == clock_at(start, k as int, size as nat),
                !exists|k: int| first_round(before, start, pinned@, k),
                forall|j: int| 0 <= j < k ==> pinned@[#[trigger] clock_at(start, j, size as nat)],
            decreases size - k,
        {
            let at: usize = self.hand;
            if !pinned[at] {
                proof {
                    assert(second_round(before.len(), start, pinned@, k as int));
                    let chosen = choose|k: int| second_round(before.len(), start, pinned@, k);
                    assert(second_round(before.len(), start, pinned@, chosen));
                    assert(chosen == k);
                }
                self.remove_at(at);
                assert(!pinned@[at as int]);
                return Some(at);
            }
            self.hand = (self.hand + 1) % size;
            proof {
                lemma_clock_step(start, k as int, size as nat);
            }
            k += 1;
        }
        proof {
            assert forall|at: int| 0 <= at < pinned@.len() implies #[trigger] pinned@[at] by {
                let j = lemma_clock_reaches(start, at, size as nat);
            }
            lemma_clock_round(start, size as nat);
            assert forall|k: int| !#[trigger] second_round(before.len(), start, pinned@, k) by {
                if 0 <= k < size {
                    lemma_clock_value(start, k, size as nat);
                }
            }
        }
        None
    }

    /// Evicts one frame that nobody holds; whether there was one. The table
    /// keeps its floor of frames.
    pub fn evict_one(&mut self) -> (evicted: bool)
        requires
            old(self).wf(),
        ensures
            final(self).wf(),
            exists|pinned: Seq<bool>|
                pinned.len() == old(self).shown().len() && final(self).clock() == (#[trigger] evict(
                    old(self).clock(),
                    pinned,
                )).1 && evicted == (evict(old(self).clock(), pinned).0 is Some),
            evicted ==> old(self).shown().len() >= MIN_CACHE_FRAMES && exists|at: int|
                0 <= at < old(self).shown().len() && same_pages(
                    final(self).shown(),
                    #[trigger] old(self).shown().remove(at),
                ),
            !evicted ==> same_pages(final(self).shown(), old(self).shown()),
    {
        let pinned: Vec<bool> = self.pins();
        let ghost before = self.clock();
        let evicted: Option<usize> = self.evict_with(&pinned);
        proof {
            lemma_evict_pages(before, pinned@);
        }
        evicted.is_some()
    }
}

/// A position as a mathematical integer.
pub open spec fn place_of(at: Option<usize>) -> Option<int> {
    match at {
        Some(at) => Some(at as int),
        None => None,
    }
}

/// An eviction takes one frame.
pub proof fn lemma_evict_shrinks(clock: ClockView, pinned: Seq<bool>)
    ensures
        evict(clock, pinned).0 matches Some(at) ==> {
            &&& clock.frames.len() >= MIN_CACHE_FRAMES
            &&& 0 <= at < clock.frames.len()
            &&& evict(clock, pinned).1.frames.len() == clock.frames.len() - 1
        },
        evict(clock, pinned).0 is None ==> evict(clock, pinned).1.frames.len()
            == clock.frames.len(),
{
    let size = clock.frames.len();
    match evict(clock, pinned).0 {
        Some(at) => {
            let k = if exists|k: int| first_round(clock.frames, clock.hand, pinned, k) {
                choose|k: int| first_round(clock.frames, clock.hand, pinned, k)
            } else {
                choose|k: int| second_round(size, clock.hand, pinned, k)
            };
            assert(at == (clock.hand + k) % size as int);
            vstd::arithmetic::div_mod::lemma_mod_bound(clock.hand + k, size as int);
        },
        None => {},
    }
}

/// An eviction leaves the pages of the other frames as they are, in their order.
proof fn lemma_evict_pages(clock: ClockView, pinned: Seq<bool>)
    ensures
        match evict(clock, pinned).0 {
            Some(at) => same_pages(evict(clock, pinned).1.frames, clock.frames.remove(at)),
            None => same_pages(evict(clock, pinned).1.frames, clock.frames),
        },
{
    lemma_evict_shrinks(clock, pinned);
    let frames = clock.frames;
    let size = frames.len();
    if let Some(at) = evict(clock, pinned).0 {
        let k = if exists|k: int| first_round(frames, clock.hand, pinned, k) {
            choose|k: int| first_round(frames, clock.hand, pinned, k)
        } else {
            size as int
        };
        lemma_same_removed(passed(frames, clock.hand, k), frames, at);
    }
}

/// Where neither round stops at a step, neither stops before it.
proof fn lemma_no_stop(frames: Seq<FrameView>, hand: int, pinned: Seq<bool>, n: int)
    requires
        0 <= n <= frames.len(),
    ensures
        (forall|k: int| !first_round(frames, hand, pinned, k)) ==> forall|j: int|
            0 <= j < n ==> !#[trigger] stops(frames, hand, pinned, j),
        (forall|k: int| !second_round(frames.len(), hand, pinned, k)) ==> forall|j: int|
            0 <= j < n ==> pinned[#[trigger] clock_at(hand, j, frames.len())],
    decreases n,
{
    if n > 0 {
        lemma_no_stop(frames, hand, pinned, n - 1);
        if forall|k: int| !first_round(frames, hand, pinned, k) {
            assert(!first_round(frames, hand, pinned, n - 1));
        }
        if forall|k: int| !second_round(frames.len(), hand, pinned, k) {
            assert(!second_round(frames.len(), hand, pinned, n - 1));
        }
    }
}

/// A frame is evicted exactly where there are enough frames and one of them is not pinned. It is
/// never a pinned one, and none that has its second chance while another that is not pinned has
/// none.
pub proof fn law_eviction_spares_pinned_frames(clock: ClockView, pinned: Seq<bool>)
    requires
        pinned.len() == clock.frames.len(),
        clock.frames.len() > 0 ==> 0 <= clock.hand < clock.frames.len(),
    ensures
        evict(clock, pinned).0 is Some <==> clock.frames.len() >= MIN_CACHE_FRAMES && exists|i: int|
            0 <= i < pinned.len() && !#[trigger] pinned[i],
        evict(clock, pinned).0 matches Some(at) ==> {
            &&& 0 <= at < clock.frames.len()
            &&& !pinned[at]
            &&& clock.frames[at].referenced ==> forall|i: int|
                0 <= i < clock.frames.len() && !pinned[i] ==> (
                #[trigger] clock.frames[i]).referenced
            &&& same_pages(evict(clock, pinned).1.frames, clock.frames.remove(at))
        },
{
    let frames = clock.frames;
    let hand = clock.hand;
    let size = frames.len();
    lemma_evict_shrinks(clock, pinned);
    lemma_evict_pages(clock, pinned);
    if size >= MIN_CACHE_FRAMES && size > 0 {
        lemma_no_stop(frames, hand, pinned, size as int);
        assert forall|i: int| 0 <= i < size && evict(clock, pinned).0 is None implies pinned[i] by {
            let k = lemma_clock_reaches(hand, i, size);
            assert(pinned[clock_at(hand, k, size)]);
        }
        if let Some(at) = evict(clock, pinned).0 {
            if frames[at].referenced {
                assert forall|i: int| 0 <= i < size && !pinned[i] implies (
                #[trigger] frames[i]).referenced by {
                    let k = lemma_clock_reaches(hand, i, size);
                    assert(!stops(frames, hand, pinned, k));
                }
            }
        }
    }
}

/// Shedding keeps to its bounds; where no frame is pinned, it gives back what was asked for unless
/// the floor is reached.
proof fn lemma_shed(clock: ClockView, pinned: Seq<bool>, charge: int, bytes: int)
    requires
        pinned.len() == clock.frames.len(),
        clock.frames.len() > 0 ==> 0 <= clock.hand < clock.frames.len(),
        charge >= 0,
    ensures
        shed_bounds(
            clock.frames.len(),
            shed_to(clock, pinned, charge, bytes).frames,
            charge,
            bytes,
        ),
        (forall|i: int| 0 <= i < pinned.len() ==> !#[trigger] pinned[i]) ==> {
            let after = shed_to(clock, pinned, charge, bytes).frames;
            (clock.frames.len() - after.len()) * charge >= bytes || after.len() < MIN_CACHE_FRAMES
        },
    decreases clock.frames.len(),
{
    let size = clock.frames.len();
    assert(0 * charge == 0) by (nonlinear_arith);
    if bytes > 0 {
        lemma_evict_shrinks(clock, pinned);
        let (evicted, after) = evict(clock, pinned);
        match evicted {
            Some(at) => {
                lemma_shed(after, pinned.remove(at), charge, bytes - charge);
                let left = shed_to(after, pinned.remove(at), charge, bytes - charge).frames;
                let gone = after.frames.len() - left.len();
                assert((gone + 1) * charge == gone * charge + charge) by (nonlinear_arith);
                assert((gone - 1) * charge == gone * charge - charge) by (nonlinear_arith);
            },
            None => {
                if size >= MIN_CACHE_FRAMES {
                    lemma_clock_value(clock.hand, 0, size);
                    if forall|i: int| 0 <= i < pinned.len() ==> !#[trigger] pinned[i] {
                        assert(second_round(size, clock.hand, pinned, 0));
                    }
                }
            },
        }
    }
}

proof fn lemma_same_removed(a: Seq<FrameView>, b: Seq<FrameView>, at: int)
    requires
        same_pages(a, b),
        0 <= at < a.len(),
    ensures
        same_pages(a.remove(at), b.remove(at)),
{
    let p = a.remove(at);
    let q = b.remove(at);
    assert forall|i: int| 0 <= i < p.len() implies (#[trigger] p[i]).page_id == q[i].page_id
        && p[i].data == q[i].data by {
        let k = if i < at {
            i
        } else {
            i + 1
        };
        assert(p[i] == a[k] && q[i] == b[k]);
    }
}

proof fn lemma_clock_step(hand: int, k: int, size: nat)
    requires
        0 <= hand < size,
        0 <= k < size,
    ensures
        clock_at(hand, k + 1, size) == (clock_at(hand, k, size) + 1) % size as int,
        0 <= clock_at(hand, k, size) < size,
{
    let n = size as int;
    if hand + k < n {
        vstd::arithmetic::div_mod::lemma_small_mod((hand + k) as nat, size);
    } else {
        vstd::arithmetic::div_mod::lemma_mod_add_multiples_vanish(hand + k - n, n);
        vstd::arithmetic::div_mod::lemma_small_mod((hand + k - n) as nat, size);
        vstd::arithmetic::div_mod::lemma_mod_add_multiples_vanish(hand + k + 1 - n, n);
    }
}

proof fn lemma_clock_value(hand: int, k: int, size: nat)
    requires
        0 <= hand < size,
        0 <= k <= size,
    ensures
        clock_at(hand, k, size) == if hand + k < size {
            hand + k
        } else {
            hand + k - size
        },
{
    let n = size as int;
    if hand + k < n {
        vstd::arithmetic::div_mod::lemma_small_mod((hand + k) as nat, size);
    } else {
        vstd::arithmetic::div_mod::lemma_mod_add_multiples_vanish(hand + k - n, n);
        vstd::arithmetic::div_mod::lemma_small_mod((hand + k - n) as nat, size);
    }
}

proof fn lemma_clock_round(hand: int, size: nat)
    requires
        0 <= hand < size,
    ensures
        clock_at(hand, size as int, size) == hand,
{
    lemma_clock_value(hand, size as int, size);
}

proof fn lemma_clock_reaches(hand: int, at: int, size: nat) -> (k: int)
    requires
        0 <= hand < size,
        0 <= at < size,
    ensures
        0 <= k < size,
        clock_at(hand, k, size) == at,
{
    let k = if at >= hand {
        at - hand
    } else {
        at - hand + size
    };
    lemma_clock_value(hand, k, size);
    k
}

/// The frames and what each of them is charged.
#[derive(Debug)]
pub struct PageCache {
    pub table: FrameTable,
    pub frame_charge: usize,
}

impl PageCache {
    /// The bytes charged for the frames.
    pub open spec fn charges(self) -> nat {
        self.table.shown().len() * self.frame_charge as nat
    }

    /// The charges of the cache are part of what the budget has charged.
    pub open spec fn within(self, budget: MemoryBudget) -> bool {
        self.charges() <= budget.charged_of()
    }

    /// What else the budget has charged.
    pub open spec fn others(self, budget: MemoryBudget) -> int {
        budget.charged_of() - self.charges()
    }

    /// A cache for pages of a size.
    pub fn new(page_size: u32) -> (cache: PageCache)
        ensures
            cache.table.wf(),
            cache.table.shown().len() == 0,
            page_size <= 65536 ==> cache.frame_charge == page_size + FRAME_OVERHEAD,
    {
        let charge: usize = (page_size as usize).saturating_add(FRAME_OVERHEAD);
        PageCache { table: FrameTable::new(), frame_charge: charge }
    }

    /// Charges one more frame, evicting frames that nobody holds while the
    /// budget has no room.
    pub fn charge_after_reclaim(&mut self, budget: &mut MemoryBudget) -> (charged: bool)
        requires
            old(self).table.wf(),
            old(self).within(*old(budget)),
        ensures
            exists|pinned: Seq<bool>|
                pinned.len() == old(self).table.shown().len() && (
                charged,
                final(self).table.clock(),
            ) == #[trigger] charge_to(
                    old(self).table.clock(),
                    pinned,
                    old(self).frame_charge as int,
                    old(budget).room(),
                ),
            final(self).table.wf(),
            final(self).frame_charge == old(self).frame_charge,
            final(budget).limit_of() == old(budget).limit_of(),
            final(self).table.shown().len() <= old(self).table.shown().len(),
            final(self).others(*final(budget)) == old(self).others(*old(budget)) + if charged {
                old(self).frame_charge as int
            } else {
                0int
            },
            charged ==> final(budget).charged_of() <= final(budget).limit_of(),
            !charged ==> final(budget).charged_of() + old(self).frame_charge
                > final(budget).limit_of(),
            old(self).frame_charge <= old(budget).room() ==> charged && final(self).table.clock()
                == old(self).table.clock(),
            holds_subset(final(self).table, old(self).table),
    {
        let pinned: Vec<bool> = self.table.pins();
        self.charge_with(pinned, budget)
    }

    /// Charges one more frame, evicting frames while the budget has no room,
    /// given which frames are pinned.
    pub fn charge_with(&mut self, pinned: Vec<bool>, budget: &mut MemoryBudget) -> (charged: bool)
        requires
            old(self).table.wf(),
            old(self).within(*old(budget)),
            pinned@.len() == old(self).table.shown().len(),
        ensures
            (charged, final(self).table.clock()) == charge_to(
                old(self).table.clock(),
                pinned@,
                old(self).frame_charge as int,
                old(budget).room(),
            ),
            final(self).table.wf(),
            final(self).frame_charge == old(self).frame_charge,
            final(budget).limit_of() == old(budget).limit_of(),
            final(self).table.shown().len() <= old(self).table.shown().len(),
            final(self).others(*final(budget)) == old(self).others(*old(budget)) + if charged {
                old(self).frame_charge as int
            } else {
                0int
            },
            charged ==> final(budget).charged_of() <= final(budget).limit_of(),
            !charged ==> final(budget).charged_of() + old(self).frame_charge
                > final(budget).limit_of(),
            old(self).frame_charge <= old(budget).room() ==> charged && final(self).table.clock()
                == old(self).table.clock(),
            holds_subset(final(self).table, old(self).table),
    {
        if budget.try_charge(self.frame_charge) {
            return true;
        }
        let mut pins: Vec<bool> = pinned;
        let ghost wanted = charge_to(
            self.table.clock(),
            pinned@,
            self.frame_charge as int,
            old(budget).room(),
        );
        loop
            invariant
                self.table.wf(),
                self.within(*budget),
                self.frame_charge == old(self).frame_charge,
                budget.limit_of() == old(budget).limit_of(),
                self.table.shown().len() <= old(self).table.shown().len(),
                self.others(*budget) == old(self).others(*old(budget)),
                budget.charged_of() + self.frame_charge > budget.limit_of(),
                old(self).frame_charge > old(budget).room(),
                holds_subset(self.table, old(self).table),
                pins@.len() == self.table.shown().len(),
                wanted == charge_to(
                    old(self).table.clock(),
                    pinned@,
                    old(self).frame_charge as int,
                    old(budget).room(),
                ),
                wanted == charge_to(
                    self.table.clock(),
                    pins@,
                    self.frame_charge as int,
                    budget.room(),
                ),
            decreases self.table.shown().len(),
        {
            let ghost before = self.table;
            let ghost held = pins@;
            let ghost room = budget.room();
            proof {
                lemma_evict_shrinks(before.clock(), held);
                lemma_evict_pages(before.clock(), held);
            }
            let at: usize = match self.table.evict_with(&pins) {
                None => {
                    assert(holds_subset(self.table, before));
                    return false;
                },
                Some(at) => at,
            };
            proof {
                lemma_one_less(before.shown().len(), self.frame_charge as nat);
                lemma_removed_subset(self.table, before, at as int);
            }
            let _pin: bool = pins.remove(at);
            assert(pins@ =~= held.remove(at as int));
            budget.release(self.frame_charge);
            assert(wanted == charge_to(
                self.table.clock(),
                pins@,
                self.frame_charge as int,
                room + self.frame_charge,
            ));
            if budget.try_charge(self.frame_charge) {
                return true;
            }
        }
    }

    /// Drops the frame of a page that was written.
    pub fn invalidate(&mut self, page_id: u64, budget: &mut MemoryBudget)
        requires
            old(self).table.wf(),
            old(self).within(*old(budget)),
        ensures
            final(self).table.wf(),
            final(self).within(*final(budget)),
            final(self).frame_charge == old(self).frame_charge,
            final(budget).limit_of() == old(budget).limit_of(),
            final(self).others(*final(budget)) == old(self).others(*old(budget)),
            final(self).table.clock() == invalidated(old(self).table.clock(), page_id),
            !final(self).table.holds(page_id),
            holds_subset(final(self).table, old(self).table),
            forall|other: u64|
                other != page_id ==> (#[trigger] final(self).table.holds(other) == old(
                    self,
                ).table.holds(other)),
    {
        let ghost before = self.table;
        if self.table.remove(page_id) {
            proof {
                let at = choose|at: int|
                    0 <= at < before.shown().len() && (#[trigger] before.shown()[at]).page_id
                        == page_id && self.table.shown() == before.shown().remove(at);
                lemma_removed_subset(self.table, before, at);
                assert forall|other: u64| other != page_id implies (#[trigger] self.table.holds(
                    other,
                ) == before.holds(other)) by {
                    if before.holds(other) {
                        let i = choose|i: int|
                            0 <= i < before.shown().len() && (#[trigger] before.shown()[i]).page_id
                                == other;
                        if i < at {
                            assert(self.table.shown()[i] == before.shown()[i]);
                        } else {
                            assert(self.table.shown()[i - 1] == before.shown()[i]);
                        }
                    }
                }
                lemma_one_less(before.shown().len(), self.frame_charge as nat);
            }
            budget.release(self.frame_charge);
        }
    }

    /// Notes that a page was read, which holds these bytes: its frame gets its second chance back,
    /// or it gets a frame, where its charge fits.
    pub fn note_read(&mut self, page_id: u64, data: Vec<u8>, budget: &mut MemoryBudget)
        requires
            old(self).table.wf(),
            old(self).within(*old(budget)),
        ensures
            final(self).table.wf(),
            final(self).within(*final(budget)),
            final(self).frame_charge == old(self).frame_charge,
            final(budget).limit_of() == old(budget).limit_of(),
            final(self).others(*final(budget)) == old(self).others(*old(budget)),
            exists|pinned: Seq<bool>|
                pinned.len() == old(self).table.shown().len() && final(self).table.clock()
                    == #[trigger] read_to(
                    old(self).table.clock(),
                    page_id,
                    data@,
                    pinned,
                    old(self).frame_charge as int,
                    old(budget).room(),
                ),
            forall|i: int|
                0 <= i < final(self).table.shown().len() ==> {
                    let frame = #[trigger] final(self).table.shown()[i];
                    has_frame(old(self).table, frame.page_id, frame.data) || (frame.page_id
                        == page_id && frame.data == data@)
                },
    {
        let ghost start = self.table;
        let ghost room = budget.room();
        let ghost bytes = data@;
        let ghost charge = self.frame_charge as int;
        let found: Option<PageRef> = self.table.get(page_id);
        if let Some(_page) = found {
            proof {
                let i = choose|i: int|
                    0 <= i < start.shown().len() && (#[trigger] start.shown()[i]).page_id
                        == page_id && self.table.shown() == start.shown().update(
                        i,
                        (FrameView { referenced: true, ..start.shown()[i] }),
                    );
                let j = choose|j: int|
                    0 <= j < start.shown().len() && (#[trigger] start.shown()[j]).page_id
                        == page_id;
                assert(i == j);
                let pinned = Seq::new(start.shown().len(), |k: int| false);
                assert(self.table.clock() =~= read_to(
                    start.clock(),
                    page_id,
                    bytes,
                    pinned,
                    charge,
                    room,
                ));
                assert forall|k: int| 0 <= k < self.table.shown().len() implies has_frame(
                    start,
                    (#[trigger] self.table.shown()[k]).page_id,
                    self.table.shown()[k].data,
                ) by {
                    assert(start.shown()[k].page_id == self.table.shown()[k].page_id);
                }
            }
            return;
        }
        assert(!has_page(start.shown(), page_id)) by {
            if has_page(start.shown(), page_id) {
                assert(start.holds(page_id));
            }
        }
        assert(self.table.clock() == start.clock());
        let charged: bool = self.charge_after_reclaim(budget);
        let ghost pinned = choose|pinned: Seq<bool>|
            pinned.len() == start.shown().len() && (charged, self.table.clock())
                == #[trigger] charge_to(start.clock(), pinned, charge, room);
        let ghost middle = self.table;
        if charged {
            assert(!middle.holds(page_id)) by {
                if middle.holds(page_id) {
                    let i = choose|i: int|
                        0 <= i < middle.shown().len() && (#[trigger] middle.shown()[i]).page_id
                            == page_id;
                    assert(has_frame(start, page_id, middle.shown()[i].data));
                }
            }
            self.table.insert(page_id, PageRef::from_vec(data));
            proof {
                let n = middle.shown().len();
                assert((n + 1) * charge == n * charge + charge) by (nonlinear_arith);
                assert(self.table.shown().len() == n + 1);
            }
        }
        proof {
            assert(self.table.clock() =~= read_to(
                start.clock(),
                page_id,
                bytes,
                pinned,
                charge,
                room,
            ));
            assert forall|k: int| 0 <= k < self.table.shown().len() implies has_frame(
                start,
                (#[trigger] self.table.shown()[k]).page_id,
                self.table.shown()[k].data,
            ) || (self.table.shown()[k].page_id == page_id && self.table.shown()[k].data
                == bytes) by {
                if k < middle.shown().len() {
                    assert(self.table.shown()[k] == middle.shown()[k]);
                }
            }
        }
    }

    /// Drops the frames of pages that are no longer there.
    pub fn cut(&mut self, pages: u64, budget: &mut MemoryBudget)
        requires
            old(self).table.wf(),
            old(self).within(*old(budget)),
        ensures
            final(self).table.wf(),
            final(self).within(*final(budget)),
            final(self).frame_charge == old(self).frame_charge,
            final(budget).limit_of() == old(budget).limit_of(),
            final(self).others(*final(budget)) == old(self).others(*old(budget)),
            final(self).table.clock() == cut_to(old(self).table.clock(), pages, 0),
            holds_subset(final(self).table, old(self).table),
            forall|i: int|
                0 <= i < final(self).table.shown().len() ==> (
                #[trigger] final(self).table.shown()[i]).page_id < pages,
    {
        let mut at: usize = 0;
        while at < self.table.len()
            invariant
                at <= self.table.shown().len(),
                self.table.wf(),
                self.within(*budget),
                self.frame_charge == old(self).frame_charge,
                budget.limit_of() == old(budget).limit_of(),
                self.others(*budget) == old(self).others(*old(budget)),
                cut_to(old(self).table.clock(), pages, 0) == cut_to(
                    self.table.clock(),
                    pages,
                    at as int,
                ),
                holds_subset(self.table, old(self).table),
                forall|i: int|
                    0 <= i < at ==> (#[trigger] self.table.shown()[i]).page_id < pages,
            decreases self.table.shown().len() - at,
        {
            let ghost before = self.table;
            let (page_id, _data): (u64, PageRef) = self.table.peek(at);
            if page_id >= pages {
                self.drop_at(at, budget);
                proof {
                    lemma_removed_subset(self.table, before, at as int);
                    assert forall|i: int| 0 <= i < at implies (
                    #[trigger] self.table.shown()[i]).page_id < pages by {
                        assert(self.table.shown()[i] == before.shown()[i]);
                    }
                }
            } else {
                at += 1;
            }
        }
    }

    /// Drops the frame at a position.
    pub fn drop_at(&mut self, at: usize, budget: &mut MemoryBudget)
        requires
            old(self).table.wf(),
            old(self).within(*old(budget)),
            at < old(self).table.shown().len(),
        ensures
            final(self).table.wf(),
            final(self).within(*final(budget)),
            final(self).frame_charge == old(self).frame_charge,
            final(budget).limit_of() == old(budget).limit_of(),
            final(self).others(*final(budget)) == old(self).others(*old(budget)),
            final(self).table.shown() == old(self).table.shown().remove(at as int),
            final(self).table.clock() == dropped(old(self).table.clock(), at as int),
    {
        self.table.remove_at(at);
        proof {
            lemma_one_less(old(self).table.shown().len(), self.frame_charge as nat);
        }
        budget.release(self.frame_charge);
    }

    /// Evicts frames that nobody holds until `bytes` have been given back or
    /// none is left; whether any was evicted.
    pub fn shed(&mut self, bytes: usize, budget: &mut MemoryBudget) -> (any: bool)
        requires
            old(self).table.wf(),
            old(self).within(*old(budget)),
        ensures
            final(self).table.wf(),
            final(self).within(*final(budget)),
            final(self).frame_charge == old(self).frame_charge,
            final(budget).limit_of() == old(budget).limit_of(),
            final(self).others(*final(budget)) == old(self).others(*old(budget)),
            exists|pinned: Seq<bool>|
                pinned.len() == old(self).table.shown().len() && final(self).table.clock()
                    == #[trigger] shed_to(
                    old(self).table.clock(),
                    pinned,
                    old(self).frame_charge as int,
                    bytes as int,
                ),
            shed_bounds(
                old(self).table.shown().len(),
                final(self).table.shown(),
                old(self).frame_charge as int,
                bytes as int,
            ),
            any == (final(self).table.shown().len() < old(self).table.shown().len()),
            bytes == 0 ==> !any && final(self).table.clock() == old(self).table.clock(),
            holds_subset(final(self).table, old(self).table),
    {
        let pinned: Vec<bool> = self.table.pins();
        self.shed_with(pinned, bytes, budget)
    }

    /// Evicts frames until `bytes` have been given back or none is left that may be evicted, given
    /// which frames are pinned; whether any was evicted.
    pub fn shed_with(
        &mut self,
        pinned: Vec<bool>,
        bytes: usize,
        budget: &mut MemoryBudget,
    ) -> (any: bool)
        requires
            old(self).table.wf(),
            old(self).within(*old(budget)),
            pinned@.len() == old(self).table.shown().len(),
        ensures
            final(self).table.wf(),
            final(self).within(*final(budget)),
            final(self).frame_charge == old(self).frame_charge,
            final(budget).limit_of() == old(budget).limit_of(),
            final(self).others(*final(budget)) == old(self).others(*old(budget)),
            final(self).table.clock() == shed_to(
                old(self).table.clock(),
                pinned@,
                old(self).frame_charge as int,
                bytes as int,
            ),
            shed_bounds(
                old(self).table.shown().len(),
                final(self).table.shown(),
                old(self).frame_charge as int,
                bytes as int,
            ),
            (forall|i: int| 0 <= i < pinned@.len() ==> !#[trigger] pinned@[i]) ==> (old(
                self,
            ).table.shown().len() - final(self).table.shown().len()) * old(self).frame_charge
                >= bytes || final(self).table.shown().len() < MIN_CACHE_FRAMES,
            any == (final(self).table.shown().len() < old(self).table.shown().len()),
            holds_subset(final(self).table, old(self).table),
    {
        let mut pinned: Vec<bool> = pinned;
        let mut released: usize = 0;
        let mut any: bool = false;
        let ghost asked = pinned@;
        let ghost first = self.table.clock();
        proof {
            lemma_shed(first, asked, self.frame_charge as int, bytes as int);
        }
        while released < bytes
            invariant_except_break
                shed_to(self.table.clock(), pinned@, self.frame_charge as int, bytes - released)
                    == shed_to(first, asked, self.frame_charge as int, bytes as int),
            invariant
                self.table.wf(),
                self.within(*budget),
                self.frame_charge == old(self).frame_charge,
                budget.limit_of() == old(budget).limit_of(),
                self.others(*budget) == old(self).others(*old(budget)),
                any == (self.table.shown().len() < old(self).table.shown().len()),
                self.table.shown().len() <= old(self).table.shown().len(),
                holds_subset(self.table, old(self).table),
                pinned@.len() == self.table.shown().len(),
            ensures
                self.table.clock() == shed_to(
                    first,
                    asked,
                    self.frame_charge as int,
                    bytes as int,
                ),
            decreases self.table.shown().len(),
        {
            let ghost before = self.table;
            let ghost held = pinned@;
            proof {
                lemma_evict_shrinks(before.clock(), pinned@);
                lemma_evict_pages(before.clock(), pinned@);
            }
            match self.table.evict_with(&pinned) {
                None => {
                    assert(holds_subset(self.table, before));
                    break;
                },
                Some(at) => {
                    proof {
                        lemma_one_less(before.shown().len(), self.frame_charge as nat);
                        lemma_removed_subset(self.table, before, at as int);
                    }
                    let _pin: bool = pinned.remove(at);
                },
            }
            budget.release(self.frame_charge);
            let ghost short = bytes - released - self.frame_charge;
            released = released.saturating_add(self.frame_charge);
            any = true;
            proof {
                let charge = self.frame_charge as int;
                let (place, after) = evict(before.clock(), held);
                assert(after == self.table.clock());
                assert(pinned@ =~= held.remove(place->0));
                assert(shed_to(before.clock(), held, charge, short + charge) == shed_to(
                    after,
                    held.remove(place->0),
                    charge,
                    short + charge - charge,
                ));
                assert(short == bytes - released || (short <= 0 && bytes - released <= 0));
                assert(shed_to(after, pinned@, charge, short) == shed_to(
                    after,
                    pinned@,
                    charge,
                    bytes - released,
                ));
            }
        }
        any
    }

    /// Gives back the charges of all frames.
    pub fn release_all(&mut self, budget: &mut MemoryBudget)
        requires
            old(self).within(*old(budget)),
        ensures
            final(self).table.wf(),
            final(self).table.shown().len() == 0,
            final(self).frame_charge == old(self).frame_charge,
            final(budget).limit_of() == old(budget).limit_of(),
            final(budget).charged_of() == old(self).others(*old(budget)),
    {
        let frames: usize = self.table.len();
        match frames.checked_mul(self.frame_charge) {
            Some(bytes) => {
                budget.release(bytes);
            },
            None => {
                let all: usize = budget.charged();
                budget.release(all);
            },
        }
        self.table = FrameTable::new();
        proof {
            assert(self.charges() == 0) by (nonlinear_arith)
                requires
                    self.charges() == self.table.shown().len() * self.frame_charge as nat,
                    self.table.shown().len() == 0,
            ;
        }
    }
}

proof fn lemma_one_less(frames: nat, charge: nat)
    requires
        frames > 0,
    ensures
        frames * charge == (frames - 1) * charge + charge,
        (frames - 1) * charge >= 0,
{
    assert(frames * charge == (frames - 1) * charge + charge) by (nonlinear_arith);
    assert((frames - 1) * charge >= 0) by (nonlinear_arith)
        requires
            frames > 0,
    ;
}

/// Whether every frame of one table is, page and bytes, a frame of another.
pub open spec fn holds_subset(small: FrameTable, large: FrameTable) -> bool {
    forall|i: int|
        0 <= i < small.shown().len() ==> has_frame(
            large,
            (#[trigger] small.shown()[i]).page_id,
            small.shown()[i].data,
        )
}

/// Whether a table has a frame of these bytes for a page.
pub open spec fn has_frame(table: FrameTable, page_id: u64, data: Seq<u8>) -> bool {
    exists|j: int|
        0 <= j < table.shown().len() && (#[trigger] table.shown()[j]).page_id == page_id
            && table.shown()[j].data == data
}

proof fn lemma_removed_subset(after: FrameTable, before: FrameTable, at: int)
    requires
        0 <= at < before.shown().len(),
        same_pages(after.shown(), before.shown().remove(at)),
    ensures
        holds_subset(after, before),
        after.shown().len() == before.shown().len() - 1,
        forall|other: FrameTable| #[trigger]
            holds_subset(before, other) ==> holds_subset(after, other),
{
    assert forall|i: int| 0 <= i < after.shown().len() implies has_frame(
        before,
        (#[trigger] after.shown()[i]).page_id,
        after.shown()[i].data,
    ) by {
        let k = if i < at {
            i
        } else {
            i + 1
        };
        assert(before.shown().remove(at)[i] == before.shown()[k]);
    }
    assert forall|other: FrameTable| #[trigger] holds_subset(before, other) implies holds_subset(
        after,
        other,
    ) by {
        assert forall|i: int| 0 <= i < after.shown().len() implies has_frame(
            other,
            (#[trigger] after.shown()[i]).page_id,
            after.shown()[i].data,
        ) by {
            let j = choose|j: int|
                0 <= j < before.shown().len() && (#[trigger] before.shown()[j]).page_id
                    == after.shown()[i].page_id && before.shown()[j].data
                    == after.shown()[i].data;
            assert(has_frame(other, before.shown()[j].page_id, before.shown()[j].data));
        }
    }
}

} // verus!
