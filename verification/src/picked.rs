//! Lists that are picked out of others, said by places.

use vstd::prelude::*;

verus! {

/// Whether `part` is what `of` gives at `places` of `all`: the places go up, they are all those at
/// which `of` gives something, and each gives what stands in `part`.
pub open spec fn gives_at<T, U>(
    part: Seq<U>,
    all: Seq<T>,
    of: spec_fn(T) -> Option<U>,
    places: Seq<int>,
) -> bool {
    &&& places.len() == part.len()
    &&& forall|i: int| 0 <= i < places.len() ==> 0 <= #[trigger] places[i] < all.len()
    &&& forall|i: int, j: int|
        0 <= i < j < places.len() ==> #[trigger] places[i] < #[trigger] places[j]
    &&& forall|i: int|
        0 <= i < places.len() ==> of(all[#[trigger] places[i]]) == Some(part[i])
    &&& forall|k: int|
        0 <= k < all.len() && of(#[trigger] all[k]) is Some ==> places.contains(k)
}

/// Whether `part` is what `of` gives of `all`: in order, nothing left out, nothing added.
pub open spec fn gives<T, U>(part: Seq<U>, all: Seq<T>, of: spec_fn(T) -> Option<U>) -> bool {
    exists|places: Seq<int>| gives_at(part, all, of, places)
}

/// Whether `part` is what is `wanted` of `all`: in order, nothing left out, nothing added.
pub open spec fn keeps<T>(part: Seq<T>, all: Seq<T>, wanted: spec_fn(T) -> bool) -> bool {
    gives(
        part,
        all,
        |item: T|
            if wanted(item) {
                Some(item)
            } else {
                None
            },
    )
}

/// Nothing gives nothing.
pub proof fn lemma_gives_none<T, U>(all: Seq<T>, of: spec_fn(T) -> Option<U>)
    requires
        all.len() == 0,
    ensures
        gives(Seq::<U>::empty(), all, of),
{
    assert(gives_at(Seq::<U>::empty(), all, of, Seq::<int>::empty()));
}

/// One item more gives what it gives more.
pub proof fn lemma_gives_more<T, U>(part: Seq<U>, all: Seq<T>, of: spec_fn(T) -> Option<U>, item: T)
    requires
        gives(part, all, of),
    ensures
        match of(item) {
            Some(given) => gives(part.push(given), all.push(item), of),
            None => gives(part, all.push(item), of),
        },
{
    let places = choose|places: Seq<int>| gives_at(part, all, of, places);
    let longer = all.push(item);
    match of(item) {
        Some(given) => {
            let more = places.push(all.len() as int);
            assert forall|i: int| 0 <= i < more.len() implies of(longer[#[trigger] more[i]]) == Some(
                part.push(given)[i],
            ) by {
                if i < places.len() {
                    assert(longer[places[i]] == all[places[i]]);
                }
            }
            assert forall|k: int| 0 <= k < longer.len() && of(#[trigger] longer[k]) is Some implies
                more.contains(k) by {
                if k < all.len() {
                    assert(longer[k] == all[k]);
                    assert(places.contains(k));
                    let i = places.index_of(k);
                    assert(more[i] == k);
                } else {
                    assert(more[places.len() as int] == k);
                }
            }
            assert(gives_at(part.push(given), longer, of, more));
        },
        None => {
            assert forall|i: int| 0 <= i < places.len() implies of(longer[#[trigger] places[i]])
                == Some(part[i]) by {
                assert(longer[places[i]] == all[places[i]]);
            }
            assert forall|k: int| 0 <= k < longer.len() && of(#[trigger] longer[k]) is Some implies
                places.contains(k) by {
                assert(k < all.len());
                assert(longer[k] == all[k]);
            }
            assert(gives_at(part, longer, of, places));
        },
    }
}

/// One item more is kept where it is wanted.
pub proof fn lemma_keeps_more<T>(part: Seq<T>, all: Seq<T>, wanted: spec_fn(T) -> bool, item: T)
    requires
        keeps(part, all, wanted),
    ensures
        keeps(
            if wanted(item) {
                part.push(item)
            } else {
                part
            },
            all.push(item),
            wanted,
        ),
{
    let of = |item: T|
        if wanted(item) {
            Some(item)
        } else {
            None
        };
    lemma_gives_more(part, all, of, item);
}

/// Nothing keeps nothing.
pub proof fn lemma_keeps_none<T>(all: Seq<T>, wanted: spec_fn(T) -> bool)
    requires
        all.len() == 0,
    ensures
        keeps(Seq::<T>::empty(), all, wanted),
{
    let of = |item: T|
        if wanted(item) {
            Some(item)
        } else {
            None
        };
    lemma_gives_none(all, of);
}

/// One item more before all others gives what it gives before what they give.
pub proof fn lemma_gives_before<T, U>(
    part: Seq<U>,
    all: Seq<T>,
    of: spec_fn(T) -> Option<U>,
    item: T,
)
    requires
        gives(part, all, of),
    ensures
        match of(item) {
            Some(given) => gives(seq![given] + part, seq![item] + all, of),
            None => gives(part, seq![item] + all, of),
        },
{
    let places = choose|places: Seq<int>| gives_at(part, all, of, places);
    let longer = seq![item] + all;
    let moved = Seq::new(places.len(), |i: int| places[i] + 1);
    assert forall|k: int| 0 <= k < all.len() implies #[trigger] longer[k + 1] == all[k] by {}
    assert forall|k: int| 1 <= k < longer.len() && of(#[trigger] longer[k]) is Some implies
        moved.contains(k) by {
        assert(longer[k] == all[k - 1]);
        assert(places.contains(k - 1));
        let i = places.index_of(k - 1);
        assert(moved[i] == k);
    }
    assert forall|i: int| 0 <= i < moved.len() implies of(longer[#[trigger] moved[i]]) == Some(
        part[i],
    ) by {
        assert(longer[places[i] + 1] == all[places[i]]);
    }
    match of(item) {
        Some(given) => {
            let more = seq![0int] + moved;
            assert forall|i: int| 0 <= i < more.len() implies of(longer[#[trigger] more[i]])
                == Some((seq![given] + part)[i]) by {
                if i > 0 {
                    assert(more[i] == moved[i - 1]);
                }
            }
            assert forall|k: int| 0 <= k < longer.len() && of(#[trigger] longer[k]) is Some implies
                more.contains(k) by {
                if k == 0 {
                    assert(more[0] == 0);
                } else {
                    let i = moved.index_of(k);
                    assert(more[i + 1] == k);
                }
            }
            assert forall|i: int, j: int| 0 <= i < j < more.len() implies #[trigger] more[i]
                < #[trigger] more[j] by {
                assert(more[j] == moved[j - 1]);
                if i > 0 {
                    assert(more[i] == moved[i - 1]);
                    assert(places[i - 1] < places[j - 1]);
                } else {
                    assert(places[j - 1] >= 0);
                }
            }
            assert(gives_at(seq![given] + part, longer, of, more));
        },
        None => {
            assert forall|i: int, j: int| 0 <= i < j < moved.len() implies #[trigger] moved[i]
                < #[trigger] moved[j] by {
                assert(places[i] < places[j]);
            }
            assert(longer[0] == item);
            assert(gives_at(part, longer, of, moved));
        },
    }
}

} // verus!
