//! Sets of numbers kept as strictly ascending lists.

use vstd::prelude::*;

verus! {

/// Whether a list ascends strictly.
pub open spec fn ascending(list: Seq<u64>) -> bool {
    forall|i: int, j: int| 0 <= i < j < list.len() ==> #[trigger] list[i] < #[trigger] list[j]
}

/// Whether two lists have the same members.
pub open spec fn same_members(a: Seq<u64>, b: Seq<u64>) -> bool {
    forall|x: u64| #[trigger] a.contains(x) <==> #[trigger] b.contains(x)
}

/// A set has one ascending list.
pub proof fn lemma_ascending_unique(a: Seq<u64>, b: Seq<u64>)
    requires
        ascending(a),
        ascending(b),
        same_members(a, b),
    ensures
        a == b,
    decreases a.len(),
{
    if a.len() == 0 {
        if b.len() > 0 {
            assert(b.contains(b[0]));
            assert(a.contains(b[0]));
        }
        assert(a =~= b);
    } else {
        let x = a.last();
        assert(a.contains(x));
        assert(b.contains(x));
        let y = b.last();
        assert(b.contains(y));
        assert(a.contains(y));
        assert(x == y);
        let p = a.drop_last();
        let q = b.drop_last();
        assert forall|z: u64| #[trigger] p.contains(z) <==> #[trigger] q.contains(z) by {
            lemma_without_last(a, z);
            lemma_without_last(b, z);
        }
        lemma_ascending_unique(p, q);
        assert(a =~= p.push(x));
        assert(b =~= q.push(y));
    }
}

/// The members of a list without its last one.
proof fn lemma_without_last(list: Seq<u64>, x: u64)
    requires
        ascending(list),
        list.len() > 0,
    ensures
        list.drop_last().contains(x) <==> list.contains(x) && x != list.last(),
{
    if list.contains(x) && x != list.last() {
        let i = choose|i: int| 0 <= i < list.len() && list[i] == x;
        assert(list.drop_last()[i] == x);
    }
    if list.drop_last().contains(x) {
        let i = choose|i: int| 0 <= i < list.len() - 1 && list.drop_last()[i] == x;
        assert(list[i] == x);
    }
}

/// Looks a number up: whether it is there, and where it stands or would
/// have to stand.
pub fn search(list: &Vec<u64>, key: u64) -> (found: (bool, usize))
    requires
        ascending(list@),
    ensures
        found.1 <= list@.len(),
        found.0 == list@.contains(key),
        found.0 ==> found.1 < list@.len() && list@[found.1 as int] == key,
        forall|i: int| 0 <= i < found.1 ==> #[trigger] list@[i] < key,
        forall|i: int| found.1 <= i < list@.len() ==> key <= #[trigger] list@[i],
{
    let mut low: usize = 0;
    let mut high: usize = list.len();
    while low < high
        invariant
            low <= high <= list@.len(),
            ascending(list@),
            forall|i: int| 0 <= i < low ==> #[trigger] list@[i] < key,
            forall|i: int| high <= i < list@.len() ==> key <= #[trigger] list@[i],
        decreases high - low,
    {
        let middle: usize = low + (high - low) / 2;
        if list[middle] < key {
            low = middle + 1;
        } else {
            high = middle;
        }
    }
    let there: bool = low < list.len() && list[low] == key;
    (there, low)
}

/// Whether the number is in the list.
pub fn has(list: &Vec<u64>, key: u64) -> (there: bool)
    requires
        ascending(list@),
    ensures
        there == list@.contains(key),
{
    search(list, key).0
}

/// Puts a number into the list; whether it was not there before.
pub fn insert(list: &mut Vec<u64>, key: u64) -> (new: bool)
    requires
        ascending(old(list)@),
    ensures
        ascending(final(list)@),
        new == !old(list)@.contains(key),
        final(list)@.len() == old(list)@.len() + if new {
            1int
        } else {
            0int
        },
        forall|x: u64| #[trigger]
            final(list)@.contains(x) <==> old(list)@.contains(x) || x == key,
{
    let ghost before = list@;
    let (there, at): (bool, usize) = search(list, key);
    if there {
        return false;
    }
    list.insert(at, key);
    proof {
        let after = list@;
        assert forall|x: u64| #[trigger] after.contains(x) <==> before.contains(x) || x == key by {
            if before.contains(x) {
                let i = choose|i: int| 0 <= i < before.len() && before[i] == x;
                if i < at {
                    assert(after[i] == x);
                } else {
                    assert(after[i + 1] == x);
                }
            }
            if x == key {
                assert(after[at as int] == x);
            }
            if after.contains(x) && x != key {
                let i = choose|i: int| 0 <= i < after.len() && after[i] == x;
                if i < at {
                    assert(before[i] == x);
                } else {
                    assert(before[i - 1] == x);
                }
            }
        }
    }
    true
}

/// Takes a number out of the list; whether it was there.
pub fn remove(list: &mut Vec<u64>, key: u64) -> (was: bool)
    requires
        ascending(old(list)@),
    ensures
        ascending(final(list)@),
        was == old(list)@.contains(key),
        final(list)@.len() == old(list)@.len() - if was {
            1int
        } else {
            0int
        },
        forall|x: u64| #[trigger]
            final(list)@.contains(x) <==> old(list)@.contains(x) && x != key,
{
    let ghost before = list@;
    let (there, at): (bool, usize) = search(list, key);
    if !there {
        return false;
    }
    let _taken: u64 = list.remove(at);
    proof {
        let after = list@;
        assert(after =~= before.remove(at as int));
        assert forall|x: u64| #[trigger] after.contains(x) <==> before.contains(x) && x != key by {
            if before.contains(x) && x != key {
                let i = choose|i: int| 0 <= i < before.len() && before[i] == x;
                if i < at {
                    assert(after[i] == x);
                } else {
                    assert(after[i - 1] == x);
                }
            }
            if after.contains(x) {
                let i = choose|i: int| 0 <= i < after.len() && after[i] == x;
                if i < at {
                    assert(before[i] == x);
                } else {
                    assert(before[i + 1] == x);
                    assert(before[at as int] < before[i + 1]);
                }
            }
        }
    }
    true
}

/// Puts all numbers of `more` into the list.
pub fn insert_all(list: &mut Vec<u64>, more: &[u64])
    requires
        ascending(old(list)@),
    ensures
        ascending(final(list)@),
        forall|x: u64| #[trigger]
            final(list)@.contains(x) <==> old(list)@.contains(x) || more@.contains(x),
{
    let ghost before = list@;
    let mut i: usize = 0;
    assert(more@.subrange(0, 0) =~= Seq::<u64>::empty());
    while i < more.len()
        invariant
            i <= more@.len(),
            ascending(list@),
            forall|x: u64| #[trigger]
                list@.contains(x) <==> before.contains(x) || more@.subrange(0, i as int).contains(
                    x,
                ),
        decreases more@.len() - i,
    {
        let ghost middle = list@;
        let key: u64 = more[i];
        insert(list, key);
        proof {
            let part = more@.subrange(0, i as int);
            let next = more@.subrange(0, i + 1);
            assert(next =~= part.push(key));
            assert forall|x: u64| #[trigger] list@.contains(x) <==> before.contains(x)
                || next.contains(x) by {
                if next.contains(x) {
                    let k = choose|k: int| 0 <= k < next.len() && next[k] == x;
                    if k < part.len() {
                        assert(part[k] == x);
                    }
                }
                if part.contains(x) {
                    let k = choose|k: int| 0 <= k < part.len() && part[k] == x;
                    assert(next[k] == x);
                }
                if x == key {
                    assert(next[i as int] == x);
                }
                assert(middle.contains(x) <==> before.contains(x) || part.contains(x));
            }
        }
        i += 1;
    }
    assert(more@.subrange(0, more@.len() as int) =~= more@);
}

} // verus!
