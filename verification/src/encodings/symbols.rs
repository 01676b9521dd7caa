//! Symbol tables for string compression: which byte strings of a sample are
//! worth a code, and how a table cuts a string into symbols.

use vstd::prelude::*;
use vstd::slice::slice_subrange;

use crate::order;
use crate::order::{standing, Standing};

verus! {

/// A table holds at most this many symbols; the last code is the escape.
pub const MAX_SYMBOLS: usize = 255;

/// The longest symbol.
pub const MAX_SYMBOL_LEN: usize = 8;

/// Rounds of refinement.
pub const ITERATIONS: usize = 5;

/// The sample's size in bytes before it is thinned out.
pub const SAMPLE_CAP_BYTES: u64 = 65536;

/// What the total length of the strings may be at most for any encoding to
/// fit: a code stands for at most eight bytes.
pub const TOTAL_CAP_BYTES: u64 = 34_359_738_360;

/// The byte strings of a vector of vectors.
pub open spec fn strings_of(items: Seq<Vec<u8>>) -> Seq<Seq<u8>> {
    items.map_values(|item: Vec<u8>| item@)
}

/// Whether a table is one that can be written: few enough symbols of 1 to 8
/// bytes, none of them twice.
pub open spec fn is_table(table: Seq<Seq<u8>>) -> bool {
    &&& table.len() <= MAX_SYMBOLS
    &&& forall|i: int| 0 <= i < table.len() ==> 1 <= (#[trigger] table[i]).len() <= 8
    &&& table.no_duplicates()
}

/// Whether `symbol` begins `bytes`.
pub open spec fn begins(symbol: Seq<u8>, bytes: Seq<u8>) -> bool {
    symbol.len() <= bytes.len() && bytes.subrange(0, symbol.len() as int) == symbol
}

/// Whether `code` is the longest symbol that begins `bytes`.
pub open spec fn is_longest(table: Seq<Seq<u8>>, bytes: Seq<u8>, code: int) -> bool {
    &&& 0 <= code < table.len()
    &&& begins(table[code], bytes)
    &&& forall|other: int|
        0 <= other < table.len() && begins(#[trigger] table[other], bytes) ==> table[other].len()
            <= table[code].len()
}

/// The code of the longest symbol that begins `bytes`, if there is one.
pub open spec fn longest(table: Seq<Seq<u8>>, bytes: Seq<u8>) -> Option<int> {
    if exists|code: int| is_longest(table, bytes, code) {
        Some(choose|code: int| is_longest(table, bytes, code))
    } else {
        None
    }
}

/// There is one longest symbol at most.
pub proof fn lemma_longest(table: Seq<Seq<u8>>, bytes: Seq<u8>, code: int)
    requires
        table.no_duplicates(),
        is_longest(table, bytes, code),
    ensures
        longest(table, bytes) == Some(code),
{
    let found = longest(table, bytes)->0;
    assert(is_longest(table, bytes, found));
    assert(table[found].len() == table[code].len());
    assert(table[found] == table[code]);
}

/// The symbol that a string is cut at first: the longest of the table, or
/// its first byte.
pub open spec fn first_symbol(table: Seq<Seq<u8>>, bytes: Seq<u8>) -> Seq<u8> {
    match longest(table, bytes) {
        Some(code) => table[code],
        None => seq![bytes[0]],
    }
}

/// The symbols that a string is cut into.
pub open spec fn cut(table: Seq<Seq<u8>>, bytes: Seq<u8>) -> Seq<Seq<u8>>
    decreases bytes.len(),
{
    if bytes.len() == 0 || first_symbol(table, bytes).len() == 0 || first_symbol(
        table,
        bytes,
    ).len() > bytes.len() {
        Seq::empty()
    } else {
        seq![first_symbol(table, bytes)] + cut(
            table,
            bytes.skip(first_symbol(table, bytes).len() as int),
        )
    }
}

/// One where the fact holds, else zero.
pub open spec fn tick(holds: bool) -> nat {
    if holds {
        1
    } else {
        0
    }
}

/// Whether the last two symbols join to the candidate.
pub open spec fn joins(cuts: Seq<Seq<u8>>, candidate: Seq<u8>) -> bool {
    cuts.len() >= 2 && cuts[cuts.len() - 2].len() + cuts.last().len() <= MAX_SYMBOL_LEN
        && cuts[cuts.len() - 2] + cuts.last() == candidate
}

/// How often the candidate is a symbol or the join of two neighbours.
pub open spec fn tally(cuts: Seq<Seq<u8>>, candidate: Seq<u8>) -> nat
    decreases cuts.len(),
{
    if cuts.len() == 0 {
        0
    } else {
        tally(cuts.drop_last(), candidate) + tick(cuts.last() == candidate) + tick(
            joins(cuts, candidate),
        )
    }
}

/// The same over all strings of a sample.
pub open spec fn total_tally(table: Seq<Seq<u8>>, sample: Seq<Seq<u8>>, candidate: Seq<u8>) -> nat
    decreases sample.len(),
{
    if sample.len() == 0 {
        0
    } else {
        total_tally(table, sample.drop_last(), candidate) + tally(
            cut(table, sample.last()),
            candidate,
        )
    }
}

/// How often the candidate is a single byte of the string.
pub open spec fn byte_tally(bytes: Seq<u8>, candidate: Seq<u8>) -> nat
    decreases bytes.len(),
{
    if bytes.len() == 0 {
        0
    } else {
        byte_tally(bytes.drop_last(), candidate) + tick(candidate == seq![bytes.last()])
    }
}

/// The same over all strings of a sample.
pub open spec fn total_byte_tally(sample: Seq<Seq<u8>>, candidate: Seq<u8>) -> nat
    decreases sample.len(),
{
    if sample.len() == 0 {
        0
    } else {
        total_byte_tally(sample.drop_last(), candidate) + byte_tally(sample.last(), candidate)
    }
}

/// The length of all strings together.
pub open spec fn total_len(strings: Seq<Seq<u8>>) -> nat
    decreases strings.len(),
{
    if strings.len() == 0 {
        0
    } else {
        total_len(strings.drop_last()) + strings.last().len()
    }
}

/// Whether a symbol ranks before another: by its gain, which is its count
/// times its length, then bytewise.
pub open spec fn ranks_before(gain_a: nat, a: Seq<u8>, gain_b: nat, b: Seq<u8>) -> bool {
    gain_a > gain_b || (gain_a == gain_b && order::lex_less(a, b))
}

/// Whether the table holds the best-ranked candidates, in rank order.
pub open spec fn is_best(table: Seq<Seq<u8>>, gain: spec_fn(Seq<u8>) -> nat) -> bool {
    &&& table.len() <= MAX_SYMBOLS
    &&& forall|i: int| 0 <= i < table.len() ==> gain(#[trigger] table[i]) > 0
    &&& forall|i: int, j: int|
        0 <= i < j < table.len() ==> ranks_before(
            gain(#[trigger] table[i]),
            table[i],
            gain(#[trigger] table[j]),
            table[j],
        )
    &&& forall|candidate: Seq<u8>|
        #![trigger gain(candidate)]
        gain(candidate) > 0 ==> table.contains(candidate) || (table.len() == MAX_SYMBOLS
            && ranks_before(gain(table.last()), table.last(), gain(candidate), candidate))
}

/// What single bytes gain in a sample.
pub open spec fn seed_gain(sample: Seq<Seq<u8>>) -> spec_fn(Seq<u8>) -> nat {
    |candidate: Seq<u8>| total_byte_tally(sample, candidate) * candidate.len()
}

/// What candidates gain in a sample that the table cuts.
pub open spec fn refined_gain(table: Seq<Seq<u8>>, sample: Seq<Seq<u8>>) -> spec_fn(Seq<u8>) -> nat {
    |candidate: Seq<u8>| total_tally(table, sample, candidate) * candidate.len()
}

/// Whether the table is one round better than another.
pub open spec fn refines(before: Seq<Seq<u8>>, sample: Seq<Seq<u8>>, table: Seq<Seq<u8>>) -> bool {
    is_best(table, refined_gain(before, sample))
}

/// Whether the table comes out of `rounds` rounds of refinement.
pub open spec fn is_built(sample: Seq<Seq<u8>>, rounds: nat, table: Seq<Seq<u8>>) -> bool
    decreases rounds,
{
    if rounds == 0 {
        is_table(table) && is_best(table, seed_gain(sample))
    } else {
        is_table(table) && exists|before: Seq<Seq<u8>>| #[trigger]
            refines(before, sample, table) && is_built(sample, (rounds - 1) as nat, before)
    }
}

/// The strings that are looked at: all of them up to the cap, else every
/// `k`-th for `k` the total over the cap, rounded up.
pub open spec fn sample_of(strings: Seq<Seq<u8>>) -> Seq<Seq<u8>> {
    if total_len(strings) <= SAMPLE_CAP_BYTES {
        strings
    } else {
        let stride = (total_len(strings) + SAMPLE_CAP_BYTES - 1) / SAMPLE_CAP_BYTES as int;
        Seq::new(
            ((strings.len() + stride - 1) / stride) as nat,
            |i: int| strings[i * stride],
        )
    }
}

/// The best candidates are one table.
pub proof fn lemma_best_unique(a: Seq<Seq<u8>>, b: Seq<Seq<u8>>, gain: spec_fn(Seq<u8>) -> nat)
    requires
        is_best(a, gain),
        is_best(b, gain),
    ensures
        a == b,
{
    if a != b {
        if a.len() <= b.len() {
            lemma_best_prefix(a, b, gain, a.len());
            lemma_no_extra(a, b, gain);
        } else {
            lemma_best_prefix(a, b, gain, b.len());
            lemma_no_extra(b, a, gain);
        }
        assert(a =~= b);
    }
}

proof fn lemma_no_extra(a: Seq<Seq<u8>>, b: Seq<Seq<u8>>, gain: spec_fn(Seq<u8>) -> nat)
    requires
        is_best(a, gain),
        is_best(b, gain),
        a.len() <= b.len(),
        forall|i: int| 0 <= i < a.len() ==> a[i] == b[i],
    ensures
        a.len() == b.len(),
{
    if a.len() < b.len() {
        let extra = b[a.len() as int];
        assert(gain(extra) > 0);
        assert(a.contains(extra));
        let k = choose|k: int| 0 <= k < a.len() && a[k] == extra;
        assert(b[k] == extra);
        assert(ranks_before(gain(b[k]), b[k], gain(b[a.len() as int]), b[a.len() as int]));
        order::lemma_lex_irreflexive(extra);
    }
}

proof fn lemma_rank_transitive(
    ga: nat,
    a: Seq<u8>,
    gb: nat,
    b: Seq<u8>,
    gc: nat,
    c: Seq<u8>,
)
    requires
        ranks_before(ga, a, gb, b),
        ranks_before(gb, b, gc, c),
    ensures
        ranks_before(ga, a, gc, c),
{
    if ga == gb && gb == gc {
        order::lemma_lex_transitive(a, b, c);
    }
}

proof fn lemma_best_prefix(
    a: Seq<Seq<u8>>,
    b: Seq<Seq<u8>>,
    gain: spec_fn(Seq<u8>) -> nat,
    n: nat,
)
    requires
        is_best(a, gain),
        is_best(b, gain),
        n <= a.len(),
        n <= b.len(),
    ensures
        forall|i: int| 0 <= i < n ==> a[i] == b[i],
    decreases n,
{
    if n > 0 {
        lemma_best_prefix(a, b, gain, (n - 1) as nat);
        let last = n - 1;
        if a[last] != b[last] {
            order::lemma_lex_total(a[last], b[last]);
            lemma_not_earlier(a, b, gain, last);
            lemma_not_earlier(b, a, gain, last);
        }
    }
}

proof fn lemma_not_earlier(
    a: Seq<Seq<u8>>,
    b: Seq<Seq<u8>>,
    gain: spec_fn(Seq<u8>) -> nat,
    at: int,
)
    requires
        is_best(a, gain),
        is_best(b, gain),
        0 <= at < a.len(),
        at < b.len(),
        forall|i: int| 0 <= i < at ==> a[i] == b[i],
    ensures
        !ranks_before(gain(a[at]), a[at], gain(b[at]), b[at]),
{
    let x = a[at];
    assert(gain(x) > 0);
    order::lemma_lex_irreflexive(x);
    if ranks_before(gain(x), x, gain(b[at]), b[at]) {
        if b.contains(x) {
            let k = choose|k: int| 0 <= k < b.len() && b[k] == x;
            if k < at {
                assert(a[k] == x);
                assert(ranks_before(gain(a[k]), a[k], gain(a[at]), a[at]));
            } else if k > at {
                assert(ranks_before(gain(b[at]), b[at], gain(b[k]), b[k]));
                lemma_rank_transitive(gain(x), x, gain(b[at]), b[at], gain(x), x);
            }
        } else {
            let last = b.last();
            assert(ranks_before(gain(last), last, gain(x), x));
            if at < b.len() - 1 {
                assert(ranks_before(gain(b[at]), b[at], gain(b[b.len() - 1]), b[b.len() - 1]));
                lemma_rank_transitive(gain(b[at]), b[at], gain(last), last, gain(x), x);
            }
            lemma_rank_transitive(gain(x), x, gain(b[at]), b[at], gain(x), x);
        }
    }
}

/// One sample builds one table.
pub proof fn lemma_built_unique(
    sample: Seq<Seq<u8>>,
    rounds: nat,
    a: Seq<Seq<u8>>,
    b: Seq<Seq<u8>>,
)
    requires
        is_built(sample, rounds, a),
        is_built(sample, rounds, b),
    ensures
        a == b,
    decreases rounds,
{
    if rounds == 0 {
        lemma_best_unique(a, b, seed_gain(sample));
    } else {
        let less = (rounds - 1) as nat;
        let p = choose|p: Seq<Seq<u8>>| #[trigger]
            refines(p, sample, a) && is_built(sample, less, p);
        let q = choose|q: Seq<Seq<u8>>| #[trigger]
            refines(q, sample, b) && is_built(sample, less, q);
        lemma_built_unique(sample, less, p, q);
        lemma_best_unique(a, b, refined_gain(p, sample));
    }
}

/// How often each candidate was counted, sorted bytewise.
pub struct Counts {
    keys: Vec<Vec<u8>>,
    counts: Vec<u64>,
}

impl Counts {
    /// The candidates.
    pub closed spec fn candidates(self) -> Seq<Seq<u8>> {
        strings_of(self.keys@)
    }

    /// The numbers beside them.
    pub closed spec fn numbers(self) -> Seq<u64> {
        self.counts@
    }

    /// Whether the candidates are of 1 to 8 bytes and stand in order, each
    /// counted at least once and at most `limit` times.
    pub open spec fn tidy(self, limit: nat) -> bool {
        &&& self.candidates().len() == self.numbers().len()
        &&& forall|i: int|
            0 <= i < self.candidates().len() ==> 1 <= (#[trigger] self.candidates()[i]).len() <= 8
        &&& order::ascending(self.candidates())
        &&& forall|i: int|
            0 <= i < self.numbers().len() ==> 0 < #[trigger] self.numbers()[i] <= limit
    }

    /// How often a candidate was counted.
    pub open spec fn count_of(self, candidate: Seq<u8>) -> nat {
        if self.candidates().contains(candidate) {
            self.numbers()[self.candidates().index_of(candidate)] as nat
        } else {
            0
        }
    }

    proof fn lemma_count_at(self, limit: nat, index: int)
        requires
            self.tidy(limit),
            0 <= index < self.candidates().len(),
        ensures
            self.count_of(self.candidates()[index]) == self.numbers()[index],
    {
        let candidate = self.candidates()[index];
        assert(self.candidates().contains(candidate));
        let found = self.candidates().index_of(candidate);
        assert(self.candidates()[found] == candidate);
        lemma_ascending_index(self.candidates(), found, index);
    }

    /// No candidates.
    pub fn new() -> (counts: Counts)
        ensures
            counts.tidy(0),
            forall|candidate: Seq<u8>| #[trigger] counts.count_of(candidate) == 0,
    {
        let counts = Counts { keys: Vec::new(), counts: Vec::new() };
        assert(counts.candidates() =~= Seq::<Seq<u8>>::empty());
        counts
    }

    /// Counts a candidate once.
    fn add_one(&mut self, key: &[u8], limit: Ghost<nat>)
        requires
            old(self).tidy(limit@),
            limit@ < u64::MAX,
            1 <= key@.len() <= 8,
        ensures
            final(self).tidy(limit@ + 1),
            forall|candidate: Seq<u8>| #[trigger]
                final(self).count_of(candidate) == old(self).count_of(candidate) + tick(
                    candidate == key@,
                ),
    {
        let ghost before = *self;
        let ghost keys = self.candidates();
        let mut low: usize = 0;
        let mut high: usize = self.keys.len();
        while low < high
            invariant
                low <= high <= self.keys@.len(),
                *self == before,
                keys == self.candidates(),
                order::ascending(keys),
                self.tidy(limit@),
                limit@ < u64::MAX,
                1 <= key@.len() <= 8,
                before == *old(self),
                forall|i: int| 0 <= i < low ==> order::lex_less(#[trigger] keys[i], key@),
                forall|i: int|
                    high <= i < keys.len() ==> order::lex_less(key@, #[trigger] keys[i]),
            decreases high - low,
        {
            let middle: usize = low + (high - low) / 2;
            let ghost at = keys[middle as int];
            match standing(self.keys[middle].as_slice(), key) {
                Standing::Same => {
                    let count: u64 = self.counts[middle];
                    proof {
                        assert(self.numbers()[middle as int] <= limit@);
                    }
                    self.counts.set(middle, count + 1);
                    proof {
                        assert(self.candidates() =~= keys);
                        assert(self.numbers() =~= before.numbers().update(
                            middle as int,
                            (count + 1) as u64,
                        ));
                        assert(self.tidy(limit@ + 1));
                        assert forall|candidate: Seq<u8>| #[trigger]
                            self.count_of(candidate) == before.count_of(candidate) + tick(
                                candidate == key@,
                            ) by {
                            if keys.contains(candidate) {
                                let k = keys.index_of(candidate);
                                if candidate == key@ {
                                    lemma_ascending_index(keys, k, middle as int);
                                } else {
                                    assert(k != middle);
                                }
                            } else {
                                assert(keys[middle as int] == key@);
                            }
                        }
                    }
                    return;
                },
                Standing::Before => {
                    assert forall|i: int| 0 <= i < middle + 1 implies order::lex_less(
                        #[trigger] keys[i],
                        key@,
                    ) by {
                        if i < middle {
                            order::lemma_lex_transitive(keys[i], at, key@);
                        }
                    }
                    low = middle + 1;
                },
                Standing::After => {
                    assert forall|i: int| middle <= i < keys.len() implies order::lex_less(
                        key@,
                        #[trigger] keys[i],
                    ) by {
                        if i > middle {
                            order::lemma_lex_transitive(key@, at, keys[i]);
                        }
                    }
                    high = middle;
                },
            }
        }
        let copy: Vec<u8> = copy_bytes(key);
        self.keys.insert(low, copy);
        self.counts.insert(low, 1);
        proof {
            let longer = keys.insert(low as int, key@);
            assert(self.candidates() =~= longer);
            assert(self.numbers() =~= before.numbers().insert(low as int, 1));
            assert forall|i: int| 0 <= i < longer.len() implies 1 <= (#[trigger] longer[i]).len()
                <= 8 by {
                if i < low {
                    assert(longer[i] == keys[i]);
                } else if i > low {
                    assert(longer[i] == keys[i - 1]);
                }
            }
            assert(self.tidy(limit@ + 1));
            assert forall|candidate: Seq<u8>| #[trigger]
                self.count_of(candidate) == before.count_of(candidate) + tick(
                    candidate == key@,
                ) by {
                lemma_insert_index(keys, low as int, key@, candidate);
                if candidate == key@ {
                    if keys.contains(candidate) {
                        let k = keys.index_of(candidate);
                        order::lemma_lex_irreflexive(key@);
                        if k < low {
                            assert(order::lex_less(keys[k], key@));
                        } else {
                            assert(order::lex_less(key@, keys[k]));
                        }
                    }
                    assert(longer[low as int] == key@);
                    lemma_ascending_index(longer, longer.index_of(key@), low as int);
                }
            }
        }
    }
}

proof fn lemma_ascending_index(keys: Seq<Seq<u8>>, a: int, b: int)
    requires
        order::ascending(keys),
        0 <= a < keys.len(),
        0 <= b < keys.len(),
        keys[a] == keys[b],
    ensures
        a == b,
{
    order::lemma_lex_irreflexive(keys[a]);
    if a < b {
        assert(order::lex_less(keys[a], keys[b]));
    } else if b < a {
        assert(order::lex_less(keys[b], keys[a]));
    }
}

/// Where an entry stands after another one was put in.
proof fn lemma_insert_index(keys: Seq<Seq<u8>>, at: int, key: Seq<u8>, candidate: Seq<u8>)
    requires
        0 <= at <= keys.len(),
        order::ascending(keys),
        order::ascending(keys.insert(at, key)),
    ensures
        candidate != key ==> {
            &&& keys.insert(at, key).contains(candidate) <==> keys.contains(candidate)
            &&& keys.contains(candidate) ==> {
                let k = keys.index_of(candidate);
                keys.insert(at, key).index_of(candidate) == if k < at {
                    k
                } else {
                    k + 1
                }
            }
        },
{
    let longer = keys.insert(at, key);
    if candidate != key {
        if keys.contains(candidate) {
            let k = keys.index_of(candidate);
            assert(keys[k] == candidate);
            let moved = if k < at {
                k
            } else {
                k + 1
            };
            assert(longer[moved] == candidate);
            lemma_ascending_index(longer, longer.index_of(candidate), moved);
        }
        if longer.contains(candidate) {
            let k = longer.index_of(candidate);
            if k < at {
                assert(keys[k] == candidate);
            } else {
                assert(k != at);
                assert(keys[k - 1] == candidate);
            }
        }
    }
}

/// A copy of bytes.
pub fn copy_bytes(bytes: &[u8]) -> (copy: Vec<u8>)
    ensures
        copy@ == bytes@,
{
    let mut copy: Vec<u8> = Vec::new();
    crate::bytes::put_bytes(&mut copy, bytes);
    assert(copy@ =~= bytes@);
    copy
}

/// What a candidate gains by its count.
pub open spec fn counted_gain(counts: Counts) -> spec_fn(Seq<u8>) -> nat {
    |candidate: Seq<u8>| counts.count_of(candidate) * candidate.len()
}

fn ranks_first(gain_a: u64, a: &[u8], gain_b: u64, b: &[u8]) -> (first: bool)
    ensures
        first == ranks_before(gain_a as nat, a@, gain_b as nat, b@),
{
    if gain_a != gain_b {
        return gain_a > gain_b;
    }
    match standing(a, b) {
        Standing::Before => true,
        Standing::Same => {
            proof {
                order::lemma_lex_irreflexive(a@);
            }
            false
        },
        Standing::After => {
            proof {
                if order::lex_less(a@, b@) {
                    order::lemma_lex_transitive(a@, b@, a@);
                    order::lemma_lex_irreflexive(a@);
                }
            }
            false
        },
    }
}

/// Whether the list holds the best of the first `n` candidates.
spec fn best_so_far(list: Seq<Seq<u8>>, counts: Counts, n: int) -> bool {
    let gain = counted_gain(counts);
    &&& list.len() <= MAX_SYMBOLS
    &&& forall|i: int| 0 <= i < list.len() ==> gain(#[trigger] list[i]) > 0 && 1 <= list[i].len() <= 8
    &&& forall|i: int|
        0 <= i < list.len() ==> exists|k: int|
            0 <= k < n && counts.candidates()[k] == #[trigger] list[i]
    &&& forall|i: int, j: int|
        0 <= i < j < list.len() ==> ranks_before(
            gain(#[trigger] list[i]),
            list[i],
            gain(#[trigger] list[j]),
            list[j],
        )
    &&& forall|k: int|
        0 <= k < n ==> list.contains(#[trigger] counts.candidates()[k]) || (list.len()
            == MAX_SYMBOLS && ranks_before(
            gain(list.last()),
            list.last(),
            gain(counts.candidates()[k]),
            counts.candidates()[k],
        ))
}

impl Counts {
    /// The best-ranked candidates in rank order.
    fn best(&self, limit: Ghost<nat>) -> (table: Vec<Vec<u8>>)
        requires
            self.tidy(limit@),
            limit@ * 8 <= u64::MAX,
        ensures
            is_best(strings_of(table@), counted_gain(*self)),
            is_table(strings_of(table@)),
    {
        let ghost gain = counted_gain(*self);
        let mut table: Vec<Vec<u8>> = Vec::new();
        let mut gains: Vec<u64> = Vec::new();
        let mut index: usize = 0;
        while index < self.keys.len()
            invariant
                index <= self.keys@.len(),
                self.tidy(limit@),
                limit@ * 8 <= u64::MAX,
                gain == counted_gain(*self),
                gains@.len() == table@.len(),
                forall|i: int|
                    0 <= i < gains@.len() ==> #[trigger] gains@[i] == gain(strings_of(table@)[i]),
                best_so_far(strings_of(table@), *self, index as int),
            decreases self.keys@.len() - index,
        {
            let ghost list = strings_of(table@);
            let ghost key = self.candidates()[index as int];
            proof {
                self.lemma_count_at(limit@, index as int);
                assert(1 <= key.len() <= 8);
                assert(0 < self.numbers()[index as int] <= limit@);
                let n = self.numbers()[index as int] as nat;
                assert(n * key.len() <= limit@ * 8) by (nonlinear_arith)
                    requires
                        n <= limit@,
                        key.len() <= 8,
                ;
                assert(n * key.len() > 0) by (nonlinear_arith)
                    requires
                        n > 0,
                        key.len() >= 1,
                ;
            }
            let worth: u64 = self.counts[index] * self.keys[index].len() as u64;
            assert(worth == gain(key));
            let at: usize = rank_position(
                &table,
                &gains,
                worth,
                self.keys[index].as_slice(),
                Ghost(gain),
            );
            proof {
                self.lemma_key_not_listed(limit@, list, index as int);
            }
            if at < MAX_SYMBOLS {
                let copy: Vec<u8> = copy_bytes(self.keys[index].as_slice());
                table.insert(at, copy);
                gains.insert(at, worth);
                proof {
                    assert(strings_of(table@) =~= list.insert(at as int, key));
                }
                if table.len() > MAX_SYMBOLS {
                    let ghost longer = strings_of(table@);
                    let _dropped: Option<Vec<u8>> = table.pop();
                    let _gain: Option<u64> = gains.pop();
                    proof {
                        assert(strings_of(table@) =~= longer.drop_last());
                        self.lemma_best_dropped(list, index as int, at as int);
                    }
                } else {
                    proof {
                        self.lemma_best_inserted(list, index as int, at as int);
                    }
                }
            } else {
                proof {
                    self.lemma_best_skipped(list, index as int);
                }
            }
            index += 1;
        }
        proof {
            let list = strings_of(table@);
            assert forall|candidate: Seq<u8>|
                #![trigger gain(candidate)]
                gain(candidate) > 0 implies list.contains(candidate) || (list.len() == MAX_SYMBOLS
                    && ranks_before(
                    gain(list.last()),
                    list.last(),
                    gain(candidate),
                    candidate,
                )) by {
                assert(self.count_of(candidate) * candidate.len() > 0);
                if self.count_of(candidate) == 0 {
                    assert(self.count_of(candidate) * candidate.len() == 0) by (nonlinear_arith)
                        requires
                            self.count_of(candidate) == 0,
                    ;
                }
                let k = self.candidates().index_of(candidate);
                assert(self.candidates()[k] == candidate);
            }
            assert(is_best(list, gain));
            lemma_best_distinct(list, gain);
        }
        table
    }

    proof fn lemma_key_not_listed(self, limit: nat, list: Seq<Seq<u8>>, n: int)
        requires
            self.tidy(limit),
            0 <= n < self.candidates().len(),
            best_so_far(list, self, n),
        ensures
            !list.contains(self.candidates()[n]),
    {
        let key = self.candidates()[n];
        if list.contains(key) {
            let i = choose|i: int| 0 <= i < list.len() && list[i] == key;
            let k = choose|k: int| 0 <= k < n && self.candidates()[k] == list[i];
            lemma_ascending_index(self.candidates(), k, n);
        }
    }

    proof fn lemma_best_inserted(self, list: Seq<Seq<u8>>, n: int, at: int)
        requires
            0 <= n < self.candidates().len(),
            0 <= at <= list.len(),
            list.len() < MAX_SYMBOLS,
            best_so_far(list, self, n),
            1 <= self.candidates()[n].len() <= 8,
            counted_gain(self)(self.candidates()[n]) > 0,
            placed(list, counted_gain(self), self.candidates()[n], at),
        ensures
            best_so_far(list.insert(at, self.candidates()[n]), self, n + 1),
    {
        let gain = counted_gain(self);
        let key = self.candidates()[n];
        let longer = list.insert(at, key);
        lemma_insert_ranked(list, gain, key, at);
        assert forall|i: int| 0 <= i < longer.len() implies gain(#[trigger] longer[i]) > 0 && 1
            <= longer[i].len() <= 8 by {
            if i < at {
                assert(longer[i] == list[i]);
            } else if i > at {
                assert(longer[i] == list[i - 1]);
            }
        }
        assert forall|i: int| 0 <= i < longer.len() implies exists|k: int|
            0 <= k < n + 1 && self.candidates()[k] == #[trigger] longer[i] by {
            if i < at {
                assert(longer[i] == list[i]);
                let k = choose|k: int| 0 <= k < n && self.candidates()[k] == list[i];
                assert(self.candidates()[k] == longer[i]);
            } else if i > at {
                assert(longer[i] == list[i - 1]);
                let k = choose|k: int| 0 <= k < n && self.candidates()[k] == list[i - 1];
                assert(self.candidates()[k] == longer[i]);
            } else {
                assert(self.candidates()[n] == longer[i]);
            }
        }
        assert forall|k: int| 0 <= k < n + 1 implies longer.contains(
            #[trigger] self.candidates()[k],
        ) by {
            if k < n {
                let other = self.candidates()[k];
                assert(list.contains(other));
                let i = choose|i: int| 0 <= i < list.len() && list[i] == other;
                if i < at {
                    assert(longer[i] == other);
                } else {
                    assert(longer[i + 1] == other);
                }
            } else {
                assert(longer[at] == key);
            }
        }
    }

    proof fn lemma_best_dropped(self, list: Seq<Seq<u8>>, n: int, at: int)
        requires
            0 <= n < self.candidates().len(),
            0 <= at < list.len(),
            list.len() == MAX_SYMBOLS,
            best_so_far(list, self, n),
            1 <= self.candidates()[n].len() <= 8,
            counted_gain(self)(self.candidates()[n]) > 0,
            placed(list, counted_gain(self), self.candidates()[n], at),
        ensures
            best_so_far(list.insert(at, self.candidates()[n]).drop_last(), self, n + 1),
    {
        let gain = counted_gain(self);
        let key = self.candidates()[n];
        let longer = list.insert(at, key);
        let cutoff = longer.drop_last();
        let last = list.last();
        lemma_insert_ranked(list, gain, key, at);
        assert(longer.last() == last);
        assert(cutoff.len() == MAX_SYMBOLS);
        assert forall|i: int| 0 <= i < cutoff.len() implies gain(#[trigger] cutoff[i]) > 0 && 1
            <= cutoff[i].len() <= 8 by {
            assert(cutoff[i] == longer[i]);
            if i < at {
                assert(longer[i] == list[i]);
            } else if i > at {
                assert(longer[i] == list[i - 1]);
            }
        }
        assert forall|i: int| 0 <= i < cutoff.len() implies exists|k: int|
            0 <= k < n + 1 && self.candidates()[k] == #[trigger] cutoff[i] by {
            assert(cutoff[i] == longer[i]);
            if i < at {
                let k = choose|k: int| 0 <= k < n && self.candidates()[k] == list[i];
                assert(self.candidates()[k] == cutoff[i]);
            } else if i > at {
                let k = choose|k: int| 0 <= k < n && self.candidates()[k] == list[i - 1];
                assert(self.candidates()[k] == cutoff[i]);
            } else {
                assert(self.candidates()[n] == cutoff[i]);
            }
        }
        assert forall|i: int, j: int| 0 <= i < j < cutoff.len() implies ranks_before(
            gain(#[trigger] cutoff[i]),
            cutoff[i],
            gain(#[trigger] cutoff[j]),
            cutoff[j],
        ) by {
            assert(cutoff[i] == longer[i] && cutoff[j] == longer[j]);
        }
        let kept = cutoff.last();
        assert(kept == longer[longer.len() - 2]);
        assert(ranks_before(
            gain(longer[longer.len() - 2]),
            longer[longer.len() - 2],
            gain(longer[longer.len() - 1]),
            longer[longer.len() - 1],
        ));
        assert forall|k: int| 0 <= k < n + 1 implies cutoff.contains(
            #[trigger] self.candidates()[k],
        ) || ranks_before(gain(kept), kept, gain(self.candidates()[k]), self.candidates()[k]) by {
            let other = self.candidates()[k];
            if k == n {
                assert(cutoff[at] == key);
            } else if list.contains(other) {
                let i = choose|i: int| 0 <= i < list.len() && list[i] == other;
                if i < at {
                    assert(cutoff[i] == other);
                } else if i + 1 < longer.len() - 1 {
                    assert(cutoff[i + 1] == other);
                }
            } else {
                lemma_rank_transitive(gain(kept), kept, gain(last), last, gain(other), other);
            }
        }
    }

    proof fn lemma_best_skipped(self, list: Seq<Seq<u8>>, n: int)
        requires
            0 <= n < self.candidates().len(),
            list.len() == MAX_SYMBOLS,
            best_so_far(list, self, n),
            placed(list, counted_gain(self), self.candidates()[n], list.len() as int),
        ensures
            best_so_far(list, self, n + 1),
    {
        let gain = counted_gain(self);
        assert(ranks_before(
            gain(list[list.len() - 1]),
            list[list.len() - 1],
            gain(self.candidates()[n]),
            self.candidates()[n],
        ));
        assert forall|i: int| 0 <= i < list.len() implies exists|k: int|
            0 <= k < n + 1 && self.candidates()[k] == #[trigger] list[i] by {
            let k = choose|k: int| 0 <= k < n && self.candidates()[k] == list[i];
            assert(self.candidates()[k] == list[i]);
        }
    }
}

/// Whether the key's place in rank order is `at`.
spec fn placed(list: Seq<Seq<u8>>, gain: spec_fn(Seq<u8>) -> nat, key: Seq<u8>, at: int) -> bool {
    &&& forall|i: int|
        0 <= i < at ==> ranks_before(gain(#[trigger] list[i]), list[i], gain(key), key)
    &&& forall|i: int|
        at <= i < list.len() && list[i] != key ==> ranks_before(
            gain(key),
            key,
            gain(#[trigger] list[i]),
            list[i],
        )
    &&& !list.contains(key)
}

proof fn lemma_insert_ranked(
    list: Seq<Seq<u8>>,
    gain: spec_fn(Seq<u8>) -> nat,
    key: Seq<u8>,
    at: int,
)
    requires
        0 <= at <= list.len(),
        placed(list, gain, key, at),
        forall|i: int, j: int|
            0 <= i < j < list.len() ==> ranks_before(
                gain(#[trigger] list[i]),
                list[i],
                gain(#[trigger] list[j]),
                list[j],
            ),
    ensures
        forall|i: int, j: int|
            0 <= i < j < list.len() + 1 ==> ranks_before(
                gain(#[trigger] list.insert(at, key)[i]),
                list.insert(at, key)[i],
                gain(#[trigger] list.insert(at, key)[j]),
                list.insert(at, key)[j],
            ),
{
    let longer = list.insert(at, key);
    assert forall|i: int, j: int| 0 <= i < j < longer.len() implies ranks_before(
        gain(#[trigger] longer[i]),
        longer[i],
        gain(#[trigger] longer[j]),
        longer[j],
    ) by {
        let a = if i < at {
            i
        } else {
            i - 1
        };
        let b = if j < at {
            j
        } else {
            j - 1
        };
        if i == at {
            assert(longer[j] == list[b]);
            assert(list.contains(list[b]));
        } else if j == at {
            assert(longer[i] == list[a]);
        } else {
            assert(longer[i] == list[a] && longer[j] == list[b]);
        }
    }
}

proof fn lemma_best_distinct(list: Seq<Seq<u8>>, gain: spec_fn(Seq<u8>) -> nat)
    requires
        is_best(list, gain),
    ensures
        list.no_duplicates(),
{
    assert forall|i: int, j: int| 0 <= i < list.len() && 0 <= j < list.len() && i != j implies list[i]
        != list[j] by {
        order::lemma_lex_irreflexive(list[i]);
        if i < j {
            assert(ranks_before(gain(list[i]), list[i], gain(list[j]), list[j]));
        } else {
            assert(ranks_before(gain(list[j]), list[j], gain(list[i]), list[i]));
        }
    }
}

/// Where a key belongs in rank order.
fn rank_position(
    table: &Vec<Vec<u8>>,
    gains: &Vec<u64>,
    worth: u64,
    key: &[u8],
    Ghost(gain): Ghost<spec_fn(Seq<u8>) -> nat>,
) -> (at: usize)
    requires
        gains@.len() == table@.len(),
        worth == gain(key@),
        forall|i: int|
            0 <= i < gains@.len() ==> #[trigger] gains@[i] == gain(strings_of(table@)[i]),
        forall|i: int, j: int|
            0 <= i < j < table@.len() ==> ranks_before(
                gain(#[trigger] strings_of(table@)[i]),
                strings_of(table@)[i],
                gain(#[trigger] strings_of(table@)[j]),
                strings_of(table@)[j],
            ),
    ensures
        at <= table@.len(),
        !strings_of(table@).contains(key@) ==> placed(
            strings_of(table@),
            gain,
            key@,
            at as int,
        ),
{
    let ghost list = strings_of(table@);
    let mut low: usize = 0;
    let mut high: usize = table.len();
    while low < high
        invariant
            low <= high <= table@.len(),
            list == strings_of(table@),
            gains@.len() == table@.len(),
            worth == gain(key@),
            forall|i: int| 0 <= i < gains@.len() ==> #[trigger] gains@[i] == gain(list[i]),
            forall|i: int, j: int|
                0 <= i < j < list.len() ==> ranks_before(
                    gain(#[trigger] list[i]),
                    list[i],
                    gain(#[trigger] list[j]),
                    list[j],
                ),
            forall|i: int|
                0 <= i < low ==> ranks_before(gain(#[trigger] list[i]), list[i], gain(key@), key@),
            forall|i: int|
                high <= i < list.len() && list[i] != key@ && !list.contains(key@) ==> ranks_before(
                    gain(key@),
                    key@,
                    gain(#[trigger] list[i]),
                    list[i],
                ),
        decreases high - low,
    {
        let middle: usize = low + (high - low) / 2;
        let ghost pivot = list[middle as int];
        assert(gains@[middle as int] == gain(pivot));
        if ranks_first(gains[middle], table[middle].as_slice(), worth, key) {
            assert forall|i: int| 0 <= i < middle + 1 implies ranks_before(
                gain(#[trigger] list[i]),
                list[i],
                gain(key@),
                key@,
            ) by {
                if i < middle {
                    lemma_rank_transitive(
                        gain(list[i]),
                        list[i],
                        gain(pivot),
                        pivot,
                        gain(key@),
                        key@,
                    );
                }
            }
            low = middle + 1;
        } else {
            assert forall|i: int|
                middle <= i < list.len() && list[i] != key@ && !list.contains(key@) implies ranks_before(
                gain(key@),
                key@,
                gain(#[trigger] list[i]),
                list[i],
            ) by {
                assert(list.contains(pivot));
                order::lemma_lex_total(pivot, key@);
                assert(ranks_before(gain(key@), key@, gain(pivot), pivot));
                if i > middle {
                    lemma_rank_transitive(
                        gain(key@),
                        key@,
                        gain(pivot),
                        pivot,
                        gain(list[i]),
                        list[i],
                    );
                }
            }
            high = middle;
        }
    }
    low
}

/// A built symbol table: code `c` stands for `symbols[c]`.
pub struct SymbolTable {
    pub symbols: Vec<Vec<u8>>,
}

/// Whether one list of codes is that of the symbols that begin with a byte,
/// the longest first.
pub open spec fn lists_byte(table: Seq<Seq<u8>>, codes: Seq<u8>, byte: int) -> bool {
    &&& forall|i: int|
        0 <= i < codes.len() ==> (#[trigger] codes[i]) < table.len() && table[codes[i] as int][0]
            == byte
    &&& forall|code: int|
        0 <= code < table.len() && (#[trigger] table[code])[0] == byte ==> codes.contains(
            code as u8,
        )
    &&& forall|i: int, j: int|
        0 <= i < j < codes.len() ==> table[#[trigger] codes[i] as int].len()
            >= table[#[trigger] codes[j] as int].len()
}

/// Whether the index lists the codes of each first byte.
pub open spec fn is_index(table: Seq<Seq<u8>>, index: Seq<Vec<u8>>) -> bool {
    &&& index.len() == 256
    &&& forall|byte: int| 0 <= byte < 256 ==> lists_byte(table, (#[trigger] index[byte])@, byte)
}

impl SymbolTable {
    /// The symbols.
    pub open spec fn table(self) -> Seq<Seq<u8>> {
        strings_of(self.symbols@)
    }

    /// The codes by first byte, longest symbol first.
    pub fn first_byte_index(&self) -> (index: Vec<Vec<u8>>)
        requires
            is_table(self.table()),
        ensures
            is_index(self.table(), index@),
    {
        let mut index: Vec<Vec<u8>> = Vec::new();
        let mut byte: usize = 0;
        while byte < 256
            invariant
                byte <= 256,
                is_table(self.table()),
                index@.len() == byte,
                forall|b: int|
                    0 <= b < byte ==> lists_byte(self.table(), (#[trigger] index@[b])@, b),
            decreases 256 - byte,
        {
            let codes: Vec<u8> = self.codes_of(byte as u8);
            index.push(codes);
            byte += 1;
        }
        index
    }

    fn codes_of(&self, byte: u8) -> (codes: Vec<u8>)
        requires
            is_table(self.table()),
        ensures
            lists_byte(self.table(), codes@, byte as int),
    {
        let ghost table = self.table();
        let mut codes: Vec<u8> = Vec::new();
        let mut code: usize = 0;
        while code < self.symbols.len()
            invariant
                code <= self.symbols@.len() <= 255,
                table == self.table(),
                is_table(table),
                forall|i: int|
                    0 <= i < codes@.len() ==> (#[trigger] codes@[i]) < table.len()
                        && table[codes@[i] as int][0] == byte,
                forall|c: int|
                    0 <= c < code && (#[trigger] table[c])[0] == byte ==> codes@.contains(c as u8),
                forall|i: int, j: int|
                    0 <= i < j < codes@.len() ==> table[#[trigger] codes@[i] as int].len()
                        >= table[#[trigger] codes@[j] as int].len(),
            decreases self.symbols@.len() - code,
        {
            assert(1 <= table[code as int].len() <= 8);
            if self.symbols[code][0] == byte {
                let len: usize = self.symbols[code].len();
                let ghost before = codes@;
                let mut at: usize = 0;
                while at < codes.len() && self.symbols[codes[at] as usize].len() >= len
                    invariant
                        at <= codes@.len(),
                        codes@ == before,
                        table == self.table(),
                        len == table[code as int].len(),
                        forall|i: int|
                            0 <= i < codes@.len() ==> (#[trigger] codes@[i]) < table.len(),
                        forall|i: int|
                            0 <= i < at ==> table[#[trigger] codes@[i] as int].len() >= len,
                    decreases codes@.len() - at,
                {
                    at += 1;
                }
                codes.insert(at, code as u8);
                proof {
                    let longer = before.insert(at as int, code as u8);
                    assert(codes@ == longer);
                    assert forall|i: int| 0 <= i < longer.len() implies (#[trigger] longer[i])
                        < table.len() && table[longer[i] as int][0] == byte by {
                        if i < at {
                            assert(longer[i] == before[i]);
                        } else if i > at {
                            assert(longer[i] == before[i - 1]);
                        }
                    }
                    assert forall|c: int|
                        0 <= c < code + 1 && (#[trigger] table[c])[0] == byte implies longer.contains(
                        c as u8,
                    ) by {
                        if c < code {
                            let k = choose|k: int| 0 <= k < before.len() && before[k] == c as u8;
                            if k < at {
                                assert(longer[k] == c as u8);
                            } else {
                                assert(longer[k + 1] == c as u8);
                            }
                        } else {
                            assert(longer[at as int] == c as u8);
                        }
                    }
                    assert forall|i: int, j: int| 0 <= i < j < longer.len() implies table[
                        #[trigger] longer[i] as int].len() >= table[#[trigger] longer[j] as int].len() by {
                        let a = if i < at {
                            i
                        } else {
                            i - 1
                        };
                        let b = if j < at {
                            j
                        } else {
                            j - 1
                        };
                        if i == at {
                            assert(longer[j] == before[b]);
                            if b > at {
                                assert(table[before[at as int] as int].len()
                                    >= table[before[b] as int].len());
                            }
                        } else if j == at {
                            assert(longer[i] == before[a]);
                        } else {
                            assert(longer[i] == before[a] && longer[j] == before[b]);
                            if a < b {
                                assert(table[before[a] as int].len()
                                    >= table[before[b] as int].len());
                            }
                        }
                    }
                }
            }
            code += 1;
        }
        codes
    }

    /// The code of the longest symbol that begins `bytes` from `from` on.
    pub fn longest_match(&self, index: &Vec<Vec<u8>>, bytes: &[u8], from: usize) -> (found: Option<u8>)
        requires
            is_table(self.table()),
            is_index(self.table(), index@),
            from < bytes@.len(),
        ensures
            match found {
                Some(code) => longest(self.table(), bytes@.skip(from as int)) == Some(code as int)
                    && is_longest(self.table(), bytes@.skip(from as int), code as int),
                None => longest(self.table(), bytes@.skip(from as int)) is None,
            },
    {
        let ghost table = self.table();
        let ghost rest = bytes@.skip(from as int);
        let codes: &Vec<u8> = &index[bytes[from] as usize];
        assert(lists_byte(table, codes@, bytes@[from as int] as int));
        let mut at: usize = 0;
        while at < codes.len()
            invariant
                at <= codes@.len(),
                table == self.table(),
                is_table(table),
                rest == bytes@.skip(from as int),
                from < bytes@.len(),
                lists_byte(table, codes@, bytes@[from as int] as int),
                forall|i: int|
                    0 <= i < at ==> !begins(table[#[trigger] codes@[i] as int], rest),
            decreases codes@.len() - at,
        {
            let code: u8 = codes[at];
            if starts_at(bytes, from, self.symbols[code as usize].as_slice()) {
                proof {
                    assert forall|other: int|
                        0 <= other < table.len() && begins(
                            #[trigger] table[other],
                            rest,
                        ) implies table[other].len() <= table[code as int].len() by {
                        assert(1 <= table[other].len());
                        assert(rest.subrange(0, table[other].len() as int)[0] == rest[0]);
                        assert(table[other][0] == bytes@[from as int]);
                        assert(codes@.contains(other as u8));
                        let k = choose|k: int| 0 <= k < codes@.len() && codes@[k] == other as u8;
                        if k < at {
                            assert(!begins(table[codes@[k] as int], rest));
                        } else if k > at {
                            assert(table[codes@[at as int] as int].len()
                                >= table[codes@[k] as int].len());
                        }
                    }
                    assert(is_longest(table, rest, code as int));
                    lemma_longest(table, rest, code as int);
                }
                return Some(code);
            }
            at += 1;
        }
        proof {
            assert forall|code: int| !is_longest(table, rest, code) by {
                if is_longest(table, rest, code) {
                    assert(1 <= table[code].len());
                    assert(rest.subrange(0, table[code].len() as int)[0] == rest[0]);
                    assert(table[code][0] == bytes@[from as int]);
                    assert(codes@.contains(code as u8));
                    let k = choose|k: int| 0 <= k < codes@.len() && codes@[k] == code as u8;
                    assert(!begins(table[codes@[k] as int], rest));
                }
            }
        }
        None
    }

    /// Counts the symbols and the joins of neighbours of one string.
    fn count_string(
        &self,
        index: &Vec<Vec<u8>>,
        bytes: &[u8],
        counts: &mut Counts,
        Ghost(limit): Ghost<nat>,
    )
        requires
            is_table(self.table()),
            is_index(self.table(), index@),
            old(counts).tidy(limit),
            limit + 2 * bytes@.len() < u64::MAX,
        ensures
            final(counts).tidy(limit + 2 * bytes@.len()),
            forall|candidate: Seq<u8>| #[trigger]
                final(counts).count_of(candidate) == old(counts).count_of(candidate) + tally(
                    cut(self.table(), bytes@),
                    candidate,
                ),
    {
        let ghost table = self.table();
        let ghost start = *counts;
        let total: usize = bytes.len();
        let mut position: usize = 0;
        let mut previous: usize = 0;
        let ghost mut done: Seq<Seq<u8>> = Seq::empty();
        assert(bytes@.skip(0) =~= bytes@);
        assert(Seq::<Seq<u8>>::empty() + cut(table, bytes@) =~= cut(table, bytes@));
        while position < total
            invariant
                total == bytes@.len(),
                previous <= position <= total,
                table == self.table(),
                is_table(table),
                is_index(table, index@),
                limit + 2 * bytes@.len() < u64::MAX,
                counts.tidy((limit + 2 * position) as nat),
                cut(table, bytes@) == done + cut(table, bytes@.skip(position as int)),
                done.len() == 0 <==> position == 0,
                done.len() > 0 ==> done.last() == bytes@.subrange(
                    previous as int,
                    position as int,
                ) && previous < position,
                forall|candidate: Seq<u8>| #[trigger]
                    counts.count_of(candidate) == start.count_of(candidate) + tally(
                        done,
                        candidate,
                    ),
            decreases total - position,
        {
            let ghost rest = bytes@.skip(position as int);
            let ghost symbol = first_symbol(table, rest);
            let len: usize = match self.longest_match(index, bytes, position) {
                Some(code) => {
                    assert(1 <= table[code as int].len() <= 8);
                    self.symbols[code as usize].len()
                },
                None => 1,
            };
            let end: usize = position + len;
            proof {
                assert(symbol == rest.subrange(0, len as int)) by {
                    if longest(table, rest) is None {
                        assert(rest.subrange(0, 1) =~= seq![rest[0]]);
                    }
                }
                assert(bytes@.subrange(position as int, end as int) =~= symbol);
                assert(rest.skip(len as int) =~= bytes@.skip(end as int));
            }
            let ghost before = *counts;
            let ghost grown = done.push(symbol);
            counts.add_one(
                slice_subrange(bytes, position, end),
                Ghost((limit + 2 * position) as nat),
            );
            let ghost middle = *counts;
            let joined: bool = position > 0 && end - previous <= MAX_SYMBOL_LEN;
            if joined {
                counts.add_one(
                    slice_subrange(bytes, previous, end),
                    Ghost((limit + 2 * position + 1) as nat),
                );
            }
            proof {
                assert(grown.drop_last() =~= done);
                if done.len() > 0 {
                    assert(grown[grown.len() - 2] == done.last());
                    assert(done.last() + symbol =~= bytes@.subrange(previous as int, end as int));
                }
                assert forall|candidate: Seq<u8>| #[trigger]
                    counts.count_of(candidate) == start.count_of(candidate) + tally(
                        grown,
                        candidate,
                    ) by {
                    assert(middle.count_of(candidate) == before.count_of(candidate) + tick(
                        candidate == symbol,
                    ));
                    assert(grown.last() == symbol);
                    assert(joins(grown, candidate) == (joined && candidate == bytes@.subrange(
                        previous as int,
                        end as int,
                    )));
                }
                assert(cut(table, bytes@) =~= grown + cut(table, bytes@.skip(end as int)));
                assert(counts.tidy((limit + 2 * end) as nat));
                done = grown;
            }
            previous = position;
            position = end;
        }
        proof {
            assert(bytes@.skip(total as int) =~= Seq::<u8>::empty());
            assert(done + cut(table, bytes@.skip(total as int)) =~= done);
        }
    }

    /// One round: counts the sample's symbols and joins and keeps the best.
    pub fn refine(&self, sample: &Vec<Vec<u8>>) -> (better: SymbolTable)
        requires
            is_table(self.table()),
            total_len(strings_of(sample@)) <= TOTAL_CAP_BYTES,
        ensures
            refines(self.table(), strings_of(sample@), better.table()),
            is_table(better.table()),
    {
        let ghost table = self.table();
        let ghost strings = strings_of(sample@);
        let index: Vec<Vec<u8>> = self.first_byte_index();
        let mut counts: Counts = Counts::new();
        let mut at: usize = 0;
        assert(strings.subrange(0, 0) =~= Seq::<Seq<u8>>::empty());
        while at < sample.len()
            invariant
                at <= sample@.len(),
                table == self.table(),
                strings == strings_of(sample@),
                is_table(table),
                is_index(table, index@),
                total_len(strings) <= TOTAL_CAP_BYTES,
                counts.tidy(2 * total_len(strings.subrange(0, at as int))),
                forall|candidate: Seq<u8>| #[trigger]
                    counts.count_of(candidate) == total_tally(
                        table,
                        strings.subrange(0, at as int),
                        candidate,
                    ),
            decreases sample@.len() - at,
        {
            let ghost part = strings.subrange(0, at as int);
            let ghost next = strings.subrange(0, at + 1);
            let ghost before = counts;
            proof {
                assert(next.drop_last() =~= part);
                assert(next.last() == sample@[at as int]@);
                lemma_total_prefix(strings, at + 1);
            }
            self.count_string(
                &index,
                sample[at].as_slice(),
                &mut counts,
                Ghost(2 * total_len(part)),
            );
            proof {
                assert forall|candidate: Seq<u8>| #[trigger]
                    counts.count_of(candidate) == total_tally(table, next, candidate) by {
                    assert(before.count_of(candidate) == total_tally(table, part, candidate));
                }
            }
            at += 1;
        }
        assert(strings.subrange(0, sample@.len() as int) =~= strings);
        let symbols: Vec<Vec<u8>> = counts.best(Ghost(2 * total_len(strings)));
        let better = SymbolTable { symbols };
        proof {
            assert(counted_gain(counts) =~= refined_gain(table, strings)) by {
                assert forall|candidate: Seq<u8>| #[trigger]
                    counted_gain(counts)(candidate) == refined_gain(table, strings)(candidate) by {
                    assert(counts.count_of(candidate) == total_tally(table, strings, candidate));
                }
            }
        }
        better
    }

    /// The table of the strings: seeded with their single bytes, then refined.
    pub fn build(strings: &Vec<Vec<u8>>, total: u64) -> (built: SymbolTable)
        requires
            total == total_len(strings_of(strings@)),
            total <= TOTAL_CAP_BYTES,
        ensures
            is_built(sample_of(strings_of(strings@)), ITERATIONS as nat, built.table()),
            is_table(built.table()),
    {
        let sample: Vec<Vec<u8>> = sample_strings(strings, total);
        let ghost shown = strings_of(sample@);
        let mut table: SymbolTable = seed_symbols(&sample);
        let mut round: usize = 0;
        while round < ITERATIONS
            invariant
                round <= ITERATIONS,
                shown == strings_of(sample@),
                total_len(shown) <= TOTAL_CAP_BYTES,
                is_built(shown, round as nat, table.table()),
                is_table(table.table()),
            decreases ITERATIONS - round,
        {
            let better: SymbolTable = table.refine(&sample);
            assert(refines(table.table(), shown, better.table()));
            table = better;
            round += 1;
        }
        table
    }
}

/// What comes first is no longer than the whole.
pub proof fn lemma_total_prefix(strings: Seq<Seq<u8>>, n: int)
    requires
        0 <= n <= strings.len(),
    ensures
        total_len(strings.subrange(0, n)) <= total_len(strings),
    decreases strings.len() - n,
{
    if n < strings.len() {
        lemma_total_prefix(strings, n + 1);
        assert(strings.subrange(0, n + 1).drop_last() =~= strings.subrange(0, n));
    } else {
        assert(strings.subrange(0, n) =~= strings);
    }
}

fn starts_at(bytes: &[u8], from: usize, symbol: &[u8]) -> (starts: bool)
    requires
        from <= bytes@.len(),
    ensures
        starts == begins(symbol@, bytes@.skip(from as int)),
{
    let ghost rest = bytes@.skip(from as int);
    let total: usize = bytes.len();
    if symbol.len() > total - from {
        return false;
    }
    let mut i: usize = 0;
    while i < symbol.len()
        invariant
            i <= symbol@.len(),
            total == bytes@.len(),
            from + symbol@.len() <= bytes@.len(),
            rest == bytes@.skip(from as int),
            forall|j: int| 0 <= j < i ==> symbol@[j] == rest[j],
        decreases symbol@.len() - i,
    {
        if bytes[from + i] != symbol[i] {
            proof {
                assert(rest.subrange(0, symbol@.len() as int)[i as int] == rest[i as int]);
            }
            return false;
        }
        i += 1;
    }
    assert(rest.subrange(0, symbol@.len() as int) =~= symbol@);
    true
}

/// The strings that are looked at.
fn sample_strings(strings: &Vec<Vec<u8>>, total: u64) -> (sample: Vec<Vec<u8>>)
    requires
        total == total_len(strings_of(strings@)),
        total <= TOTAL_CAP_BYTES,
    ensures
        strings_of(sample@) == sample_of(strings_of(strings@)),
        total_len(strings_of(sample@)) <= total,
{
    let ghost shown = strings_of(strings@);
    let stride: usize = if total <= SAMPLE_CAP_BYTES {
        1
    } else {
        ((total + SAMPLE_CAP_BYTES - 1) / SAMPLE_CAP_BYTES) as usize
    };
    let ghost want = Seq::new(
        ((shown.len() + stride - 1) / stride as int) as nat,
        |i: int| shown[i * stride],
    );
    let mut sample: Vec<Vec<u8>> = Vec::new();
    let mut at: usize = 0;
    proof {
        if stride == 1 {
            assert((shown.len() + stride - 1) / stride as int == shown.len()) by (nonlinear_arith)
                requires
                    stride == 1,
            ;
            assert forall|i: int| 0 <= i < shown.len() implies want[i] == shown[i] by {
                assert(i * stride == i) by (nonlinear_arith)
                    requires
                        stride == 1,
                ;
            }
            assert(want =~= shown);
        }
        assert(want == sample_of(shown));
        assert(shown.subrange(0, 0) =~= Seq::<Seq<u8>>::empty());
        assert(strings_of(sample@) =~= Seq::<Seq<u8>>::empty());
    }
    while at < strings.len()
        invariant
            1 <= stride,
            shown == strings_of(strings@),
            total == total_len(shown),
            want == Seq::new(
                ((shown.len() + stride - 1) / stride as int) as nat,
                |i: int| shown[i * stride],
            ),
            at == sample@.len() * stride || at == strings@.len(),
            at == strings@.len() ==> sample@.len() == want.len(),
            at < strings@.len() ==> at == sample@.len() * stride,
            at <= strings@.len(),
            sample@.len() <= want.len(),
            forall|i: int| 0 <= i < sample@.len() ==> (#[trigger] sample@[i])@ == want[i],
            total_len(strings_of(sample@)) <= total_len(shown.subrange(0, at as int)),
        decreases strings@.len() - at,
    {
        let ghost n = sample@.len() as int;
        let ghost before = strings_of(sample@);
        sample.push(copy_bytes(strings[at].as_slice()));
        proof {
            assert(at == n * stride);
            let len = strings@.len() as int;
            vstd::arithmetic::div_mod::lemma_fundamental_div_mod(len + stride - 1, stride as int);
            let q = (len + stride - 1) / stride as int;
            assert(n < q) by (nonlinear_arith)
                requires
                    n * stride < len,
                    stride >= 1,
                    len + stride - 1 == stride * q + (len + stride - 1) % (stride as int),
                    0 <= (len + stride - 1) % (stride as int) < stride,
            ;
            assert(want.len() == q);
            assert(want[n] == shown[n * stride]);
            assert(strings_of(sample@) =~= before.push(shown[at as int]));
            assert(before.push(shown[at as int]).drop_last() =~= before);
            let next = shown.subrange(0, at + 1);
            assert(next.drop_last() =~= shown.subrange(0, at as int));
            assert(total_len(strings_of(sample@)) <= total_len(next));
            assert(n * stride + stride == (n + 1) * stride) by (nonlinear_arith);
            if at + stride >= len {
                assert(n + 1 == q) by (nonlinear_arith)
                    requires
                        n * stride < len,
                        n * stride + stride >= len,
                        stride >= 1,
                        len + stride - 1 == stride * q + (len + stride - 1) % (stride as int),
                        0 <= (len + stride - 1) % (stride as int) < stride,
                ;
            }
        }
        if strings.len() - at <= stride {
            proof {
                lemma_total_monotone(shown, at + 1, strings@.len() as int);
            }
            at = strings.len();
        } else {
            proof {
                lemma_total_monotone(shown, at + 1, at + stride);
            }
            at = at + stride;
        }
    }
    proof {
        if strings@.len() == 0 {
            assert((shown.len() + stride - 1) / stride as int == 0) by {
                vstd::arithmetic::div_mod::lemma_basic_div(stride - 1, stride as int);
            }
        }
        assert(strings_of(sample@) =~= want);
        lemma_total_prefix(shown, at as int);
    }
    sample
}

proof fn lemma_total_monotone(strings: Seq<Seq<u8>>, a: int, b: int)
    requires
        0 <= a <= b <= strings.len(),
    ensures
        total_len(strings.subrange(0, a)) <= total_len(strings.subrange(0, b)),
{
    lemma_total_prefix(strings.subrange(0, b), a);
    assert(strings.subrange(0, b).subrange(0, a) =~= strings.subrange(0, a));
}

/// The sample's single bytes, the most frequent first.
fn seed_symbols(sample: &Vec<Vec<u8>>) -> (table: SymbolTable)
    requires
        total_len(strings_of(sample@)) <= TOTAL_CAP_BYTES,
    ensures
        is_built(strings_of(sample@), 0, table.table()),
        is_table(table.table()),
{
    let ghost strings = strings_of(sample@);
    let mut counts: Counts = Counts::new();
    let mut at: usize = 0;
    assert(strings.subrange(0, 0) =~= Seq::<Seq<u8>>::empty());
    while at < sample.len()
        invariant
            at <= sample@.len(),
            strings == strings_of(sample@),
            total_len(strings) <= TOTAL_CAP_BYTES,
            counts.tidy(total_len(strings.subrange(0, at as int))),
            forall|candidate: Seq<u8>| #[trigger]
                counts.count_of(candidate) == total_byte_tally(
                    strings.subrange(0, at as int),
                    candidate,
                ),
        decreases sample@.len() - at,
    {
        let ghost part = strings.subrange(0, at as int);
        let ghost next = strings.subrange(0, at + 1);
        let ghost before = counts;
        proof {
            assert(next.drop_last() =~= part);
            assert(next.last() == sample@[at as int]@);
            lemma_total_prefix(strings, at + 1);
        }
        count_bytes(sample[at].as_slice(), &mut counts, Ghost(total_len(part)));
        proof {
            assert forall|candidate: Seq<u8>| #[trigger]
                counts.count_of(candidate) == total_byte_tally(next, candidate) by {
                assert(before.count_of(candidate) == total_byte_tally(part, candidate));
            }
        }
        at += 1;
    }
    assert(strings.subrange(0, sample@.len() as int) =~= strings);
    let symbols: Vec<Vec<u8>> = counts.best(Ghost(total_len(strings)));
    let table = SymbolTable { symbols };
    proof {
        assert(counted_gain(counts) =~= seed_gain(strings)) by {
            assert forall|candidate: Seq<u8>| #[trigger]
                counted_gain(counts)(candidate) == seed_gain(strings)(candidate) by {
                assert(counts.count_of(candidate) == total_byte_tally(strings, candidate));
            }
        }
    }
    table
}

fn count_bytes(bytes: &[u8], counts: &mut Counts, Ghost(limit): Ghost<nat>)
    requires
        old(counts).tidy(limit),
        limit + bytes@.len() < u64::MAX,
    ensures
        final(counts).tidy(limit + bytes@.len()),
        forall|candidate: Seq<u8>| #[trigger]
            final(counts).count_of(candidate) == old(counts).count_of(candidate) + byte_tally(
                bytes@,
                candidate,
            ),
{
    let ghost start = *counts;
    let mut at: usize = 0;
    assert(bytes@.subrange(0, 0) =~= Seq::<u8>::empty());
    while at < bytes.len()
        invariant
            at <= bytes@.len(),
            limit + bytes@.len() < u64::MAX,
            counts.tidy((limit + at) as nat),
            forall|candidate: Seq<u8>| #[trigger]
                counts.count_of(candidate) == start.count_of(candidate) + byte_tally(
                    bytes@.subrange(0, at as int),
                    candidate,
                ),
        decreases bytes@.len() - at,
    {
        let ghost before = *counts;
        let single: &[u8] = slice_subrange(bytes, at, at + 1);
        counts.add_one(single, Ghost((limit + at) as nat));
        proof {
            let part = bytes@.subrange(0, at + 1);
            assert(part.drop_last() =~= bytes@.subrange(0, at as int));
            assert(single@ =~= seq![bytes@[at as int]]);
            assert forall|candidate: Seq<u8>| #[trigger]
                counts.count_of(candidate) == start.count_of(candidate) + byte_tally(
                    part,
                    candidate,
                ) by {
                assert(counts.count_of(candidate) == before.count_of(candidate) + tick(
                    candidate == single@,
                ));
            }
        }
        at += 1;
    }
    assert(bytes@.subrange(0, bytes@.len() as int) =~= bytes@);
}

} // verus!
