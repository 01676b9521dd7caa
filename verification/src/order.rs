//! Bytewise lexicographic order.

use vstd::prelude::*;

verus! {

/// Whether `a` stands before `b`: at the first byte that differs, or by
/// being a proper prefix.
pub open spec fn lex_less(a: Seq<u8>, b: Seq<u8>) -> bool
    decreases a.len(),
{
    if b.len() == 0 {
        false
    } else if a.len() == 0 {
        true
    } else if a[0] != b[0] {
        a[0] < b[0]
    } else {
        lex_less(a.drop_first(), b.drop_first())
    }
}

/// The first byte in which two byte strings differ decides, and where there is none the shorter
/// one stands before.
pub proof fn law_first_difference_decides(
    prefix: Seq<u8>,
    a: u8,
    b: u8,
    rest_a: Seq<u8>,
    rest_b: Seq<u8>,
)
    ensures
        a != b ==> (lex_less(prefix + seq![a] + rest_a, prefix + seq![b] + rest_b) <==> a < b),
        lex_less(prefix, prefix + seq![a] + rest_a),
        !lex_less(prefix + seq![a] + rest_a, prefix),
        !lex_less(prefix, prefix),
    decreases prefix.len(),
{
    let x = prefix + seq![a] + rest_a;
    let y = prefix + seq![b] + rest_b;
    if prefix.len() > 0 {
        let rest = prefix.drop_first();
        law_first_difference_decides(rest, a, b, rest_a, rest_b);
        assert(x.drop_first() =~= rest + seq![a] + rest_a);
        assert(y.drop_first() =~= rest + seq![b] + rest_b);
    }
}

/// How one byte string stands to another.
#[derive(Debug, Clone, Copy, PartialEq, Eq, Structural)]
pub enum Standing {
    Before,
    Same,
    After,
}

/// No byte string stands before itself.
pub proof fn lemma_lex_irreflexive(a: Seq<u8>)
    ensures
        !lex_less(a, a),
    decreases a.len(),
{
    if a.len() > 0 {
        lemma_lex_irreflexive(a.drop_first());
    }
}

/// The order is transitive.
pub proof fn lemma_lex_transitive(a: Seq<u8>, b: Seq<u8>, c: Seq<u8>)
    requires
        lex_less(a, b),
        lex_less(b, c),
    ensures
        lex_less(a, c),
    decreases a.len(),
{
    if a.len() > 0 && a[0] == b[0] && b[0] == c[0] {
        lemma_lex_transitive(a.drop_first(), b.drop_first(), c.drop_first());
    }
}

/// Of two different byte strings one stands before the other.
pub proof fn lemma_lex_total(a: Seq<u8>, b: Seq<u8>)
    ensures
        a == b || lex_less(a, b) || lex_less(b, a),
    decreases a.len(),
{
    if a.len() > 0 && b.len() > 0 && a[0] == b[0] {
        lemma_lex_total(a.drop_first(), b.drop_first());
        if a.drop_first() == b.drop_first() {
            assert(a =~= seq![a[0]] + a.drop_first());
            assert(b =~= seq![b[0]] + b.drop_first());
        }
    } else if a.len() == 0 && b.len() == 0 {
        assert(a =~= b);
    }
}

/// How `a` stands to `b`.
pub fn standing(a: &[u8], b: &[u8]) -> (standing: Standing)
    ensures
        match standing {
            Standing::Before => lex_less(a@, b@) && a@ != b@,
            Standing::Same => a@ == b@,
            Standing::After => lex_less(b@, a@) && a@ != b@,
        },
{
    let mut i: usize = 0;
    assert(a@.skip(0) =~= a@ && b@.skip(0) =~= b@);
    while i < a.len() && i < b.len()
        invariant
            i <= a@.len(),
            i <= b@.len(),
            forall|j: int| 0 <= j < i ==> a@[j] == b@[j],
            lex_less(a@, b@) == lex_less(a@.skip(i as int), b@.skip(i as int)),
            lex_less(b@, a@) == lex_less(b@.skip(i as int), a@.skip(i as int)),
        decreases a@.len() - i,
    {
        assert(a@.skip(i as int).drop_first() =~= a@.skip(i + 1));
        assert(b@.skip(i as int).drop_first() =~= b@.skip(i + 1));
        if a[i] < b[i] {
            assert(a@[i as int] != b@[i as int]);
            return Standing::Before;
        }
        if a[i] > b[i] {
            assert(a@[i as int] != b@[i as int]);
            return Standing::After;
        }
        i += 1;
    }
    if a.len() < b.len() {
        Standing::Before
    } else if a.len() > b.len() {
        Standing::After
    } else {
        assert(a@ =~= b@);
        Standing::Same
    }
}

/// Whether the byte strings stand in strictly ascending order.
pub open spec fn ascending(entries: Seq<Seq<u8>>) -> bool {
    forall|i: int, j: int|
        0 <= i < j < entries.len() ==> lex_less(#[trigger] entries[i], #[trigger] entries[j])
}

/// One more entry behind the last keeps the order.
pub proof fn lemma_ascending_push(entries: Seq<Seq<u8>>, entry: Seq<u8>)
    requires
        ascending(entries),
        entries.len() == 0 || lex_less(entries.last(), entry),
    ensures
        ascending(entries.push(entry)),
{
    let grown = entries.push(entry);
    assert forall|i: int, j: int| 0 <= i < j < grown.len() implies lex_less(
        #[trigger] grown[i],
        #[trigger] grown[j],
    ) by {
        if j == entries.len() && i < entries.len() - 1 {
            lemma_lex_transitive(entries[i], entries.last(), entry);
        }
    }
}

/// Two ascending sequences of the same entries are equal.
pub proof fn lemma_ascending_unique(a: Seq<Seq<u8>>, b: Seq<Seq<u8>>)
    requires
        ascending(a),
        ascending(b),
        forall|entry: Seq<u8>|
            #![trigger a.contains(entry)]
            #![trigger b.contains(entry)]
            a.contains(entry) <==> b.contains(entry),
    ensures
        a == b,
    decreases a.len(),
{
    if a.len() == 0 {
        if b.len() > 0 {
            assert(b.contains(b[0]));
        }
        assert(a =~= b);
    } else if b.len() == 0 {
        assert(a.contains(a[0]));
    } else {
        let x = a.last();
        let y = b.last();
        assert(a.contains(a[a.len() - 1]) && b.contains(b[b.len() - 1]));
        if x != y {
            let i = choose|i: int| 0 <= i < b.len() && b[i] == x;
            let j = choose|j: int| 0 <= j < a.len() && a[j] == y;
            assert(lex_less(b[i], b[b.len() - 1]));
            assert(lex_less(a[j], a[a.len() - 1]));
            lemma_lex_transitive(x, y, x);
            lemma_lex_irreflexive(x);
        }
        let p = a.drop_last();
        let q = b.drop_last();
        assert forall|entry: Seq<u8>|
            #![trigger p.contains(entry)]
            #![trigger q.contains(entry)]
            p.contains(entry) <==> q.contains(entry) by {
            if p.contains(entry) {
                let i = choose|i: int| 0 <= i < p.len() && p[i] == entry;
                assert(a[i] == entry);
                assert(a.contains(entry));
                let k = choose|k: int| 0 <= k < b.len() && b[k] == entry;
                if k == b.len() - 1 {
                    assert(lex_less(a[i], a[a.len() - 1]));
                    lemma_lex_irreflexive(x);
                }
                assert(q[k] == entry);
            }
            if q.contains(entry) {
                let i = choose|i: int| 0 <= i < q.len() && q[i] == entry;
                assert(b[i] == entry);
                assert(b.contains(entry));
                let k = choose|k: int| 0 <= k < a.len() && a[k] == entry;
                if k == a.len() - 1 {
                    assert(lex_less(b[i], b[b.len() - 1]));
                    lemma_lex_irreflexive(x);
                }
                assert(p[k] == entry);
            }
        }
        lemma_ascending_unique(p, q);
        assert(a =~= p.push(x));
        assert(b =~= q.push(y));
    }
}

} // verus!
