//! Finding runs of neighbouring pages among free ones.

use vstd::prelude::*;

use crate::free_pages::LedgerEntry;
use crate::sorted;
use crate::sorted::search;

verus! {

/// Superblock slots at the front of the file.
pub const SUPERBLOCK_SLOTS: u64 = 2;

/// The share of free pages, in percent, from which compaction starts.
pub const COMPACTION_FREE_PERCENT: u64 = 25;

/// Pages that one compaction returns to the file system at most.
pub const COMPACTION_TRUNCATE_PAGE_LIMIT: usize = 64;

/// Whether `count` pages from `start` on are all among `ids`.
pub open spec fn is_run(ids: Seq<u64>, start: u64, count: nat) -> bool {
    &&& start + count <= 0x1_0000_0000_0000_0000
    &&& forall|k: int|
        0 <= k < count ==> ids.contains(#[trigger] page_at(start, k))
}

/// The page `k` behind `start`.
pub open spec fn page_at(start: u64, k: int) -> u64 {
    (start + k) as u64
}

/// Neighbouring members of an ascending list stand side by side.
proof fn lemma_neighbours(list: Seq<u64>, start: u64, count: nat, at: int, k: int)
    requires
        sorted::ascending(list),
        is_run(list, start, count),
        0 <= at < list.len(),
        list[at] == start,
        0 <= k < count,
    ensures
        at + k < list.len(),
        list[at + k] == start + k,
    decreases k,
{
    if k > 0 {
        lemma_neighbours(list, start, count, at, k - 1);
        assert(list.contains(page_at(start, k)));
        let i = choose|i: int| 0 <= i < list.len() && list[i] == page_at(start, k);
        let before = at + k - 1;
        assert(i > before) by {
            if i <= before {
                assert(list[i] <= list[before]);
            }
        }
        assert(list[before + 1] <= list[i]);
        assert(list[before] < list[before + 1]);
    }
}

/// Side by side members of an ascending list that count up are a run.
proof fn lemma_stretch(list: Seq<u64>, from: int, count: nat)
    requires
        0 <= from,
        from + count <= list.len(),
        count > 0,
        forall|k: int| 0 <= k < count ==> #[trigger] list[from + k] == list[from] + k,
    ensures
        is_run(list, list[from], count),
{
    assert(list[from + (count - 1)] == list[from] + (count - 1));
    assert forall|k: int| 0 <= k < count implies list.contains(
        #[trigger] page_at(list[from], k),
    ) by {
        assert(list[from + k] == page_at(list[from], k));
    }
}

/// The lowest run of `count` pages in an ascending list.
pub fn find_contiguous_run(entries: &Vec<u64>, count: usize) -> (found: Option<Vec<u64>>)
    requires
        count > 0,
        sorted::ascending(entries@),
    ensures
        match found {
            Some(run) => {
                &&& run@.len() == count
                &&& is_run(entries@, run@[0], count as nat)
                &&& forall|k: int| 0 <= k < count ==> #[trigger] run@[k] == run@[0] + k
                &&& forall|start: u64| #[trigger]
                    is_run(entries@, start, count as nat) ==> run@[0] <= start
            },
            None => forall|start: u64| !#[trigger] is_run(entries@, start, count as nat),
        },
{
    let ghost list = entries@;
    let mut run_start: usize = 0;
    let mut i: usize = 0;
    while i < entries.len()
        invariant
            run_start <= i <= list.len(),
            list == entries@,
            count > 0,
            sorted::ascending(list),
            i - run_start < count,
            i > 0 ==> run_start < i,
            forall|j: int|
                run_start <= j < i ==> #[trigger] list[j] == list[run_start as int] + (j
                    - run_start),
            run_start > 0 ==> list[run_start - 1] + 1 != list[run_start as int],
            forall|start: u64, at: int|
                #![trigger is_run(list, start, count as nat), list[at]]
                is_run(list, start, count as nat) && 0 <= at < list.len() && list[at] == start
                    ==> at + count > i,
        decreases list.len() - i,
    {
        if i > 0 {
            let before: u64 = entries[i - 1];
            let current: u64 = entries[i];
            assert(before < current);
            if before + 1 != current {
                run_start = i;
            }
        }
        if i + 1 - run_start == count {
            let mut run: Vec<u64> = Vec::new();
            let mut k: usize = 0;
            while k < count
                invariant
                    k <= count,
                    list == entries@,
                    run_start + count == i + 1,
                    i < list.len(),
                    forall|j: int|
                        run_start <= j <= i ==> #[trigger] list[j] == list[run_start as int] + (j
                            - run_start),
                    run@.len() == k,
                    forall|j: int| 0 <= j < k ==> #[trigger] run@[j] == list[run_start as int] + j,
                decreases count - k,
            {
                run.push(entries[run_start + k]);
                k += 1;
            }
            proof {
                lemma_stretch(list, run_start as int, count as nat);
                assert forall|start: u64| #[trigger] is_run(list, start, count as nat) implies run@[0]
                    <= start by {
                    assert(list.contains(page_at(start, 0)));
                    let at = choose|at: int| 0 <= at < list.len() && list[at] == start;
                    assert(at + count > i);
                    assert(list[run_start as int] <= list[at]);
                }
            }
            return Some(run);
        }
        proof {
            assert forall|start: u64, at: int|
                #![trigger is_run(list, start, count as nat), list[at]]
                is_run(list, start, count as nat) && 0 <= at < list.len() && list[at]
                    == start implies at + count > i + 1 by {
                if at + count == i + 1 {
                    if at < run_start {
                        let k = run_start - at;
                        lemma_neighbours(list, start, count as nat, at, k);
                        lemma_neighbours(list, start, count as nat, at, k - 1);
                    }
                }
            }
        }
        i += 1;
    }
    proof {
        assert forall|start: u64| !#[trigger] is_run(list, start, count as nat) by {
            if is_run(list, start, count as nat) {
                assert(list.contains(page_at(start, 0)));
                let at = choose|at: int| 0 <= at < list.len() && list[at] == start;
                lemma_neighbours(list, start, count as nat, at, count - 1);
                assert(at + count > list.len());
            }
        }
    }
    None
}

/// A free page found in the ledger.
#[derive(Debug, Clone, Copy, PartialEq, Eq, Structural)]
pub struct ScannedReuseEntry {
    /// The ledger page that lists it.
    pub ledger_page: u64,
    /// The consumed count of that page once this entry is taken.
    pub consumed_after: u32,
    /// The entry.
    pub entry: LedgerEntry,
}

/// The page ids of scanned entries, in ledger order.
pub open spec fn scanned_ids(entries: Seq<ScannedReuseEntry>) -> Seq<u64> {
    entries.map_values(|scanned: ScannedReuseEntry| scanned.entry.page_id)
}

/// Whether a page is first listed at a ledger position.
pub open spec fn first_at(ids: Seq<u64>, id: u64, at: int) -> bool {
    &&& 0 <= at < ids.len()
    &&& ids[at] == id
    &&& forall|i: int| 0 <= i < at ==> #[trigger] ids[i] != id
}

/// Whether `through` is the last ledger position that the run takes.
pub open spec fn run_through(ids: Seq<u64>, start: u64, count: nat, through: int) -> bool {
    &&& exists|k: int| 0 <= k < count && first_at(ids, #[trigger] page_at(start, k), through)
    &&& forall|k: int, at: int|
        #![trigger first_at(ids, page_at(start, k), at)]
        0 <= k < count && first_at(ids, page_at(start, k), at) ==> at <= through
}

/// Whether the run from `start` is the one that ends earliest in the ledger,
/// and among those that end there the lowest.
pub open spec fn is_earliest_run(ids: Seq<u64>, count: nat, start: u64, through: int) -> bool {
    &&& is_run(ids, start, count)
    &&& run_through(ids, start, count, through)
    &&& forall|other: u64, end: int|
        #![trigger is_run(ids, other, count), run_through(ids, other, count, end)]
        is_run(ids, other, count) && run_through(ids, other, count, end) ==> through < end || (
        through == end && start <= other)
}

/// A member of a list is first listed somewhere.
pub proof fn lemma_first_exists(ids: Seq<u64>, id: u64) -> (at: int)
    requires
        ids.contains(id),
    ensures
        first_at(ids, id, at),
    decreases ids.len(),
{
    let i = choose|i: int| 0 <= i < ids.len() && ids[i] == id;
    let part = ids.subrange(0, i);
    if part.contains(id) {
        let at = lemma_first_exists(part, id);
        assert forall|j: int| 0 <= j < at implies #[trigger] ids[j] != id by {
            assert(part[j] == ids[j]);
        }
        assert(part[at] == ids[at]);
        at
    } else {
        assert forall|j: int| 0 <= j < i implies #[trigger] ids[j] != id by {
            assert(part[j] == ids[j]);
        }
        i
    }
}

/// Each page once, ascending, with its first ledger position.
fn first_positions(entries: &Vec<ScannedReuseEntry>) -> (found: (Vec<u64>, Vec<usize>))
    ensures
        sorted::ascending(found.0@),
        found.1@.len() == found.0@.len(),
        sorted::same_members(found.0@, scanned_ids(entries@)),
        forall|i: int|
            0 <= i < found.0@.len() ==> first_at(
                scanned_ids(entries@),
                #[trigger] found.0@[i],
                found.1@[i] as int,
            ),
{
    let ghost ids = scanned_ids(entries@);
    let mut keys: Vec<u64> = Vec::new();
    let mut positions: Vec<usize> = Vec::new();
    let mut i: usize = 0;
    while i < entries.len()
        invariant
            i <= entries@.len(),
            ids == scanned_ids(entries@),
            sorted::ascending(keys@),
            positions@.len() == keys@.len(),
            forall|x: u64| #[trigger]
                keys@.contains(x) <==> ids.subrange(0, i as int).contains(x),
            forall|j: int|
                0 <= j < keys@.len() ==> first_at(
                    ids,
                    #[trigger] keys@[j],
                    positions@[j] as int,
                ),
        decreases entries@.len() - i,
    {
        let ghost before = keys@;
        let ghost held = positions@;
        let id: u64 = entries[i].entry.page_id;
        let (there, at): (bool, usize) = search(&keys, id);
        let ghost part = ids.subrange(0, i as int);
        let ghost next = ids.subrange(0, i + 1);
        proof {
            assert(next =~= part.push(id));
            assert forall|x: u64| #[trigger] next.contains(x) <==> part.contains(x) || x == id by {
                if part.contains(x) {
                    let k = choose|k: int| 0 <= k < part.len() && part[k] == x;
                    assert(next[k] == x);
                }
                if x == id {
                    assert(next[i as int] == x);
                }
                if next.contains(x) && x != id {
                    let k = choose|k: int| 0 <= k < next.len() && next[k] == x;
                    assert(part[k] == x);
                }
            }
        }
        if !there {
            proof {
                assert(!part.contains(id));
                assert forall|j: int| 0 <= j < i implies #[trigger] ids[j] != id by {
                    assert(part[j] == ids[j]);
                }
                assert(first_at(ids, id, i as int));
            }
            keys.insert(at, id);
            positions.insert(at, i);
            proof {
                assert forall|x: u64| #[trigger] keys@.contains(x) <==> next.contains(x) by {
                    if before.contains(x) {
                        let k = choose|k: int| 0 <= k < before.len() && before[k] == x;
                        if k < at {
                            assert(keys@[k] == x);
                        } else {
                            assert(keys@[k + 1] == x);
                        }
                    }
                    if x == id {
                        assert(keys@[at as int] == x);
                    }
                    if keys@.contains(x) && x != id {
                        let k = choose|k: int| 0 <= k < keys@.len() && keys@[k] == x;
                        if k < at {
                            assert(before[k] == x);
                        } else {
                            assert(before[k - 1] == x);
                        }
                    }
                    assert(before.contains(x) <==> part.contains(x));
                }
                assert forall|j: int| 0 <= j < keys@.len() implies first_at(
                    ids,
                    #[trigger] keys@[j],
                    positions@[j] as int,
                ) by {
                    if j < at {
                        assert(keys@[j] == before[j] && positions@[j] == held[j]);
                    } else if j > at {
                        assert(keys@[j] == before[j - 1] && positions@[j] == held[j - 1]);
                    }
                }
            }
        }
        i += 1;
    }
    assert(ids.subrange(0, ids.len() as int) =~= ids);
    (keys, positions)
}

/// The members of an ascending list that form a run, at an index.
proof fn lemma_runs_agree(keys: Seq<u64>, ids: Seq<u64>, start: u64, count: nat)
    requires
        sorted::same_members(keys, ids),
    ensures
        is_run(keys, start, count) <==> is_run(ids, start, count),
{
    if is_run(ids, start, count) {
        assert forall|k: int| 0 <= k < count implies keys.contains(
            #[trigger] page_at(start, k),
        ) by {
            assert(ids.contains(page_at(start, k)));
        }
    }
    if is_run(keys, start, count) {
        assert forall|k: int| 0 <= k < count implies ids.contains(
            #[trigger] page_at(start, k),
        ) by {
            assert(keys.contains(page_at(start, k)));
        }
    }
}

/// The greatest position of a stretch of keys is where its run ends.
proof fn lemma_stretch_through(
    ids: Seq<u64>,
    keys: Seq<u64>,
    positions: Seq<usize>,
    from: int,
    count: nat,
    top: int,
)
    requires
        0 <= from,
        count > 0,
        from + count <= keys.len(),
        positions.len() == keys.len(),
        forall|i: int|
            0 <= i < keys.len() ==> first_at(ids, #[trigger] keys[i], positions[i] as int),
        forall|k: int| 0 <= k < count ==> #[trigger] keys[from + k] == keys[from] + k,
        from <= top < from + count,
        forall|j: int|
            from <= j < from + count ==> #[trigger] positions[j] <= positions[top],
    ensures
        run_through(ids, keys[from], count, positions[top] as int),
{
    let start = keys[from];
    let k = top - from;
    assert(keys[from + k] == page_at(start, k));
    assert(first_at(ids, page_at(start, k), positions[top] as int));
    assert forall|k: int, at: int|
        #![trigger first_at(ids, page_at(start, k), at)]
        0 <= k < count && first_at(ids, page_at(start, k), at) implies at <= positions[top] by {
        assert(keys[from + k] == page_at(start, k));
        assert(first_at(ids, keys[from + k], positions[from + k] as int));
        assert(at == positions[from + k]) by {
            if at < positions[from + k] {
                assert(ids[at] != keys[from + k]);
            } else if at > positions[from + k] {
                assert(ids[positions[from + k] as int] != keys[from + k]);
            }
        }
        assert(positions[from + k] <= positions[top]);
    }
}

/// A run ends at one ledger position.
proof fn lemma_through_unique(ids: Seq<u64>, start: u64, count: nat, a: int, b: int)
    requires
        run_through(ids, start, count, a),
        run_through(ids, start, count, b),
    ensures
        a == b,
{
    let j = choose|k: int| 0 <= k < count && first_at(ids, #[trigger] page_at(start, k), a);
    let k = choose|k: int| 0 <= k < count && first_at(ids, #[trigger] page_at(start, k), b);
    assert(first_at(ids, page_at(start, j), a));
    assert(first_at(ids, page_at(start, k), b));
}

/// What the sliding window holds once key `i` is in: the keys of the current
/// stretch that no later key outlasts.
spec fn window_holds(
    window: Seq<usize>,
    front: int,
    positions: Seq<usize>,
    run_start: int,
    count: nat,
    i: int,
) -> bool {
    &&& 0 <= front < window.len()
    &&& window.last() == i
    &&& forall|k: int|
        front <= k < window.len() ==> run_start <= #[trigger] window[k] <= i && window[k] + count
            > i
    &&& forall|k: int, l: int|
        front <= k < l < window.len() ==> #[trigger] window[k] < #[trigger] window[l]
            && positions[window[k] as int] > positions[window[l] as int]
    &&& forall|j: int|
        run_start <= j <= i && j + count > i ==> #[trigger] outlasted(window, front, positions, j)
}

/// Whether some key of the window, not before `j`, is listed as late.
spec fn outlasted(window: Seq<usize>, front: int, positions: Seq<usize>, j: int) -> bool {
    exists|k: int|
        front <= k < window.len() && #[trigger] window[k] >= j && positions[window[k] as int]
            >= positions[j]
}

/// Moves the window on by key `i`.
fn slide(
    window: &mut Vec<usize>,
    front: usize,
    positions: &Vec<usize>,
    run_start: usize,
    count: usize,
    i: usize,
) -> (moved: usize)
    requires
        count > 0,
        run_start <= i < positions@.len(),
        if i == run_start {
            front == old(window)@.len()
        } else {
            window_holds(
                old(window)@,
                front as int,
                positions@,
                run_start as int,
                count as nat,
                i - 1,
            )
        },
    ensures
        window_holds(
            final(window)@,
            moved as int,
            positions@,
            run_start as int,
            count as nat,
            i as int,
        ),
{
    let ghost start = window@;
    let at: usize = positions[i];
    while window.len() > front && positions[window[window.len() - 1]] <= at
        invariant
            front <= window@.len() <= start.len(),
            i < positions@.len(),
            at == positions@[i as int],
            window@ == start.subrange(0, window@.len() as int),
            forall|k: int| front <= k < start.len() ==> #[trigger] start[k] < i,
            forall|k: int|
                window@.len() <= k < start.len() && front <= k ==> positions@[(
                #[trigger] start[k]) as int] <= at,
        decreases window@.len(),
    {
        let _last: Option<usize> = window.pop();
        assert(window@ =~= start.subrange(0, window@.len() as int));
    }
    let ghost kept = window@;
    window.push(i);
    let mut moved: usize = front;
    proof {
        assert forall|k: int| front <= k < kept.len() implies window@[k] == #[trigger] start[k] by {
            assert(kept[k] == start[k]);
        }
        assert forall|j: int| run_start <= j < i && j + count > i implies #[trigger] outlasted(
            window@,
            front as int,
            positions@,
            j,
        ) by {
            assert(j + count > i - 1);
            assert(outlasted(start, front as int, positions@, j));
            let k = choose|k: int|
                front <= k < start.len() && #[trigger] start[k] >= j
                    && positions@[start[k] as int] >= positions@[j];
            if k < kept.len() {
                assert(window@[k] == start[k]);
            } else {
                assert(window@[kept.len() as int] == i);
            }
        }
        assert(window@[kept.len() as int] == i);
        assert(outlasted(window@, front as int, positions@, i as int));
        assert forall|k: int, l: int|
            front <= k < l < window@.len() implies #[trigger] window@[k] < #[trigger] window@[l]
            && positions@[window@[k] as int] > positions@[window@[l] as int] by {
            assert(window@[k] == start[k]);
            if l < kept.len() {
                assert(window@[l] == start[l]);
            } else {
                let last = kept.len() - 1;
                assert(kept.last() == start[last]);
                if k < last {
                    assert(start[k] < start[last]);
                }
            }
        }
    }
    let size: usize = window.len();
    while i >= count && window[moved] <= i - count
        invariant
            front <= moved < window@.len(),
            i < positions@.len(),
            count > 0,
            window@.last() == i,
            size == window@.len(),
            forall|k: int| front <= k < window@.len() ==> run_start <= #[trigger] window@[k] <= i,
            forall|k: int, l: int|
                front <= k < l < window@.len() ==> #[trigger] window@[k] < #[trigger] window@[l]
                    && positions@[window@[k] as int] > positions@[window@[l] as int],
            forall|j: int|
                run_start <= j <= i && j + count > i ==> #[trigger] outlasted(
                    window@,
                    moved as int,
                    positions@,
                    j,
                ),
        decreases window@.len() - moved,
    {
        proof {
            assert(window@[window@.len() - 1] == i);
            assert forall|j: int| run_start <= j <= i && j + count > i implies #[trigger] outlasted(
                window@,
                moved + 1,
                positions@,
                j,
            ) by {
                assert(outlasted(window@, moved as int, positions@, j));
                let k = choose|k: int|
                    moved <= k < window@.len() && #[trigger] window@[k] >= j
                        && positions@[window@[k] as int] >= positions@[j];
                assert(k != moved);
            }
        }
        moved += 1;
    }
    moved
}

/// Among the runs of `count` scanned pages, the one that ends earliest in
/// the ledger: its first page and the last ledger position it takes. A page
/// that is listed twice counts at its first position.
pub fn earliest_run(entries: &Vec<ScannedReuseEntry>, count: usize) -> (found: Option<(u64, usize)>)
    requires
        count > 0,
    ensures
        match found {
            Some((start, through)) => is_earliest_run(
                scanned_ids(entries@),
                count as nat,
                start,
                through as int,
            ),
            None => forall|start: u64| !#[trigger]
                is_run(scanned_ids(entries@), start, count as nat),
        },
{
    let ghost ids = scanned_ids(entries@);
    let (keys, positions): (Vec<u64>, Vec<usize>) = first_positions(entries);
    let mut best: Option<(u64, usize)> = None;
    let mut run_start: usize = 0;
    let mut window: Vec<usize> = Vec::new();
    let mut front: usize = 0;
    let mut i: usize = 0;
    while i < keys.len()
        invariant
            i <= keys@.len(),
            count > 0,
            ids == scanned_ids(entries@),
            sorted::ascending(keys@),
            positions@.len() == keys@.len(),
            sorted::same_members(keys@, ids),
            forall|j: int|
                0 <= j < keys@.len() ==> first_at(
                    ids,
                    #[trigger] keys@[j],
                    positions@[j] as int,
                ),
            i == 0 ==> run_start == 0 && front == 0 && window@.len() == 0,
            i > 0 ==> run_start < i && window_holds(
                window@,
                front as int,
                positions@,
                run_start as int,
                count as nat,
                i - 1,
            ),
            forall|j: int|
                run_start <= j < i ==> #[trigger] keys@[j] == keys@[run_start as int] + (j
                    - run_start),
            run_start > 0 && i > 0 ==> keys@[run_start - 1] + 1 != keys@[run_start as int],
            best_so_far(ids, keys@, count as nat, i as int, best),
        decreases keys@.len() - i,
    {
        if i > 0 {
            let before: u64 = keys[i - 1];
            let current: u64 = keys[i];
            assert(before < current);
            if before + 1 != current {
                run_start = i;
                window.clear();
                front = 0;
            }
        }
        let ghost prior = best;
        front = slide(&mut window, front, &positions, run_start, count, i);
        if i + 1 - run_start >= count {
            let from: usize = i + 1 - count;
            let top: usize = window[front];
            let through: usize = positions[top];
            proof {
                assert forall|k: int| 0 <= k < count implies #[trigger] keys@[from + k]
                    == keys@[from as int] + k by {
                    assert(keys@[from + k] == keys@[run_start as int] + (from + k - run_start));
                    assert(keys@[from as int] == keys@[run_start as int] + (from - run_start));
                }
                assert forall|j: int| from <= j < from + count implies #[trigger] positions@[j]
                    <= positions@[top as int] by {
                    assert(outlasted(window@, front as int, positions@, j));
                    let k = choose|k: int|
                        front <= k < window@.len() && #[trigger] window@[k] >= j
                            && positions@[window@[k] as int] >= positions@[j];
                    if k > front {
                        assert(window@[front as int] < window@[k]);
                    }
                }
                lemma_stretch(keys@, from as int, count as nat);
                lemma_runs_agree(keys@, ids, keys@[from as int], count as nat);
                lemma_stretch_through(
                    ids,
                    keys@,
                    positions@,
                    from as int,
                    count as nat,
                    top as int,
                );
            }
            let better: bool = match best {
                Some((_, least)) => through < least,
                None => true,
            };
            if better {
                best = Some((keys[from], through));
            }
            proof {
                lemma_best_step(
                    ids,
                    keys@,
                    count as nat,
                    i as int,
                    prior,
                    best,
                    Some((from as int, through as int)),
                );
            }
        } else {
            proof {
                assert forall|at: int| at + count == i + 1 && 0 <= at implies !is_run(
                    ids,
                    #[trigger] keys@[at],
                    count as nat,
                ) by {
                    lemma_runs_agree(keys@, ids, keys@[at], count as nat);
                    if is_run(keys@, keys@[at], count as nat) {
                        let k = run_start - at;
                        lemma_neighbours(keys@, keys@[at], count as nat, at, k);
                        lemma_neighbours(keys@, keys@[at], count as nat, at, k - 1);
                    }
                }
                lemma_best_step(ids, keys@, count as nat, i as int, prior, best, None);
            }
        }
        i += 1;
    }
    proof {
        lemma_best_all(ids, keys@, count as nat, best);
    }
    best
}

/// Whether `best` is the earliest of the runs whose last key is before `i`.
spec fn best_so_far(
    ids: Seq<u64>,
    keys: Seq<u64>,
    count: nat,
    i: int,
    best: Option<(u64, usize)>,
) -> bool {
    match best {
        Some((start, through)) => {
            &&& is_run(ids, start, count)
            &&& run_through(ids, start, count, through as int)
            &&& forall|at: int, end: int|
                #![trigger run_through(ids, keys[at], count, end)]
                0 <= at && at + count <= i && at < keys.len() && is_run(ids, keys[at], count)
                    && run_through(ids, keys[at], count, end) ==> through < end || (through == end
                    && start <= keys[at])
            &&& exists|at: int|
                0 <= at && at + count <= i && at < keys.len() && #[trigger] keys[at] == start
        },
        None => forall|at: int|
            0 <= at && at + count <= i && at < keys.len() ==> !is_run(
                ids,
                #[trigger] keys[at],
                count,
            ),
    }
}

proof fn lemma_best_step(
    ids: Seq<u64>,
    keys: Seq<u64>,
    count: nat,
    i: int,
    prior: Option<(u64, usize)>,
    best: Option<(u64, usize)>,
    seen: Option<(int, int)>,
)
    requires
        sorted::ascending(keys),
        count > 0,
        0 <= i < keys.len(),
        best_so_far(ids, keys, count, i, prior),
        match seen {
            Some((from, through)) => {
                &&& from + count == i + 1
                &&& 0 <= from
                &&& is_run(ids, keys[from], count)
                &&& run_through(ids, keys[from], count, through)
                &&& best == (if prior is None || through < prior->Some_0.1 {
                    Some((keys[from], through as usize))
                } else {
                    prior
                })
                &&& 0 <= through <= usize::MAX
            },
            None => {
                &&& best == prior
                &&& forall|at: int|
                    at + count == i + 1 && 0 <= at ==> !is_run(ids, #[trigger] keys[at], count)
            },
        },
    ensures
        best_so_far(ids, keys, count, i + 1, best),
{
    match seen {
        Some((from, through)) => {
            let (start, least) = best->0;
            assert forall|at: int, end: int|
                #![trigger run_through(ids, keys[at], count, end)]
                0 <= at && at + count <= i + 1 && at < keys.len() && is_run(ids, keys[at], count)
                    && run_through(ids, keys[at], count, end) implies least < end || (least == end
                && start <= keys[at]) by {
                if at == from {
                    lemma_through_unique(ids, keys[from], count, end, through);
                    if prior is Some && !(through < prior->Some_0.1) {
                        let p = choose|p: int|
                            0 <= p && p + count <= i && p < keys.len() && #[trigger] keys[p]
                                == prior->Some_0.0;
                        assert(keys[p] < keys[at]);
                    }
                } else {
                    assert(keys[at] < keys[from]);
                }
            }
            if prior is Some && best == prior {
                let p = choose|p: int|
                    0 <= p && p + count <= i && p < keys.len() && #[trigger] keys[p] == prior->Some_0.0;
                assert(keys[p] == start);
            } else {
                assert(keys[from] == start);
            }
        },
        None => {
            match best {
                Some((start, least)) => {
                    let p = choose|p: int|
                        0 <= p && p + count <= i && p < keys.len() && #[trigger] keys[p] == start;
                    assert(keys[p] == start);
                },
                None => {},
            }
        },
    }
}

proof fn lemma_best_all(
    ids: Seq<u64>,
    keys: Seq<u64>,
    count: nat,
    best: Option<(u64, usize)>,
)
    requires
        sorted::ascending(keys),
        sorted::same_members(keys, ids),
        count > 0,
        best_so_far(ids, keys, count, keys.len() as int, best),
    ensures
        match best {
            Some((start, through)) => is_earliest_run(ids, count, start, through as int),
            None => forall|start: u64| !#[trigger] is_run(ids, start, count),
        },
{
    assert forall|start: u64| #[trigger] is_run(ids, start, count) implies exists|at: int|
        0 <= at && at + count <= keys.len() && #[trigger] keys[at] == start by {
        lemma_runs_agree(keys, ids, start, count);
        assert(keys.contains(page_at(start, 0)));
        let at = choose|at: int| 0 <= at < keys.len() && keys[at] == start;
        lemma_neighbours(keys, start, count, at, count - 1);
        assert(keys[at] == start);
    }
    match best {
        Some((start, through)) => {
            assert forall|other: u64, end: int|
                #![trigger is_run(ids, other, count), run_through(ids, other, count, end)]
                is_run(ids, other, count) && run_through(ids, other, count, end) implies through
                < end || (through == end && start <= other) by {
                let at = choose|at: int|
                    0 <= at && at + count <= keys.len() && #[trigger] keys[at] == other;
                assert(run_through(ids, keys[at], count, end));
            }
        },
        None => {},
    }
}

/// Whether enough of the file is free for compaction.
pub open spec fn compaction_due(free_pages: nat, total_pages: nat) -> bool {
    total_pages > SUPERBLOCK_SLOTS && free_pages * 100 >= total_pages
        * COMPACTION_FREE_PERCENT as nat
}

/// Whether enough of the file is free for compaction.
pub fn compaction_threshold_reached(free_pages: usize, total_pages: usize) -> (due: bool)
    ensures
        due == compaction_due(free_pages as nat, total_pages as nat),
{
    total_pages as u64 > SUPERBLOCK_SLOTS && free_pages as u128 * 100 >= total_pages as u128
        * COMPACTION_FREE_PERCENT as u128
}

/// Whether the last `count` pages of the file may be cut off.
pub open spec fn tail_free(candidates: Seq<u64>, page_count: nat, count: nat) -> bool {
    &&& count == 0 || page_count - count >= SUPERBLOCK_SLOTS
    &&& forall|id: u64|
        page_count - count <= id && id < page_count ==> #[trigger] candidates.contains(id)
}

/// The pages at the end of the file that may be cut off, ascending: the
/// longest free suffix, up to the limit of one compaction.
pub fn reclaimable_tail(candidates: &Vec<u64>, page_count: usize) -> (tail: Vec<u64>)
    requires
        sorted::ascending(candidates@),
    ensures
        tail@.len() <= COMPACTION_TRUNCATE_PAGE_LIMIT,
        tail@.len() <= page_count,
        tail_free(candidates@, page_count as nat, tail@.len()),
        tail@.len() < COMPACTION_TRUNCATE_PAGE_LIMIT ==> !tail_free(
            candidates@,
            page_count as nat,
            tail@.len() + 1,
        ),
        forall|i: int|
            0 <= i < tail@.len() ==> #[trigger] tail@[i] == page_count - tail@.len() + i,
{
    let mut count: usize = 0;
    while count < COMPACTION_TRUNCATE_PAGE_LIMIT && page_count > count && (page_count - count - 1) as u64
        >= SUPERBLOCK_SLOTS && sorted::has(candidates, (page_count - count - 1) as u64)
        invariant
            count <= COMPACTION_TRUNCATE_PAGE_LIMIT,
            count <= page_count,
            sorted::ascending(candidates@),
            tail_free(candidates@, page_count as nat, count as nat),
        decreases COMPACTION_TRUNCATE_PAGE_LIMIT - count,
    {
        count += 1;
    }
    proof {
        if count < COMPACTION_TRUNCATE_PAGE_LIMIT && tail_free(
            candidates@,
            page_count as nat,
            (count + 1) as nat,
        ) {
            assert(candidates@.contains((page_count - count - 1) as u64));
        }
    }
    let mut tail: Vec<u64> = Vec::new();
    let mut i: usize = 0;
    while i < count
        invariant
            i <= count <= page_count,
            tail@.len() == i,
            forall|j: int| 0 <= j < i ==> #[trigger] tail@[j] == page_count - count + j,
        decreases count - i,
    {
        tail.push((page_count - count + i) as u64);
        i += 1;
    }
    tail
}

} // verus!
