//! The order of file names, and sorting by it.

use crate::text::views_of;
use vstd::prelude::*;

verus! {

/// Whether `a` comes before `b`, or is `b`, in the order of strings: at the
/// first position where they differ the character with the smaller code
/// point decides, and a text comes before every text that it begins.
pub open spec fn lex_le(a: Seq<char>, b: Seq<char>) -> bool
    decreases a.len(),
{
    if a.len() == 0 {
        true
    } else if b.len() == 0 {
        false
    } else if a[0] != b[0] {
        (a[0] as u32) < (b[0] as u32)
    } else {
        lex_le(a.drop_first(), b.drop_first())
    }
}

/// Whether each name of `names` is `lex_le` every later one.
pub open spec fn sorted(names: Seq<Seq<char>>) -> bool {
    forall|i: int, j: int| 0 <= i < j < names.len() ==> lex_le(names[i], names[j])
}

/// Every text is `lex_le` itself.
pub proof fn lemma_lex_le_reflexive(a: Seq<char>)
    ensures
        lex_le(a, a),
    decreases a.len(),
{
    if a.len() > 0 {
        lemma_lex_le_reflexive(a.drop_first());
    }
}

/// Of two texts one is `lex_le` the other.
pub proof fn lemma_lex_le_total(a: Seq<char>, b: Seq<char>)
    ensures
        lex_le(a, b) || lex_le(b, a),
    decreases a.len(),
{
    if a.len() > 0 && b.len() > 0 {
        if a[0] == b[0] {
            lemma_lex_le_total(a.drop_first(), b.drop_first());
        } else {
            vstd::utf8::char_u32_cast(a[0], a[0] as u32);
            vstd::utf8::char_u32_cast(b[0], b[0] as u32);
        }
    }
}

/// `lex_le` passes on from one text over a second to a third.
pub proof fn lemma_lex_le_transitive(a: Seq<char>, b: Seq<char>, c: Seq<char>)
    requires
        lex_le(a, b),
        lex_le(b, c),
    ensures
        lex_le(a, c),
    decreases a.len(),
{
    if a.len() > 0 && b.len() > 0 && c.len() > 0 && a[0] == b[0] && b[0] == c[0] {
        lemma_lex_le_transitive(a.drop_first(), b.drop_first(), c.drop_first());
    }
}

/// Two texts that are `lex_le` each other are one text.
pub proof fn lemma_lex_le_antisymmetric(a: Seq<char>, b: Seq<char>)
    requires
        lex_le(a, b),
        lex_le(b, a),
    ensures
        a == b,
    decreases a.len(),
{
    if a.len() > 0 && b.len() > 0 {
        lemma_lex_le_antisymmetric(a.drop_first(), b.drop_first());
        assert(a =~= seq![a[0]] + a.drop_first());
        assert(b =~= seq![b[0]] + b.drop_first());
    } else {
        assert(a =~= b);
    }
}

/// Two sorted lists that hold the same names, each as often as the other,
/// are one list.
pub proof fn lemma_sorted_is_unique(a: Seq<Seq<char>>, b: Seq<Seq<char>>)
    requires
        sorted(a),
        sorted(b),
        a.to_multiset() == b.to_multiset(),
    ensures
        a == b,
    decreases a.len(),
{
    a.to_multiset_ensures();
    b.to_multiset_ensures();
    if a.len() == 0 {
        assert(a =~= b);
    } else {
        assert(a.contains(a[0]));
        assert(b.len() > 0);
        assert(b.contains(b[0]));
        assert(a.to_multiset().count(a[0]) > 0);
        assert(b.to_multiset().count(b[0]) > 0);
        assert(b.to_multiset().count(a[0]) > 0);
        assert(a.to_multiset().count(b[0]) > 0);
        assert(b.contains(a[0]));
        assert(a.contains(b[0]));
        let i = choose|i: int| 0 <= i < a.len() && a[i] == b[0];
        let j = choose|j: int| 0 <= j < b.len() && b[j] == a[0];
        lemma_lex_le_reflexive(a[0]);
        lemma_lex_le_reflexive(b[0]);
        assert(lex_le(a[0], a[i]));
        assert(lex_le(b[0], b[j]));
        lemma_lex_le_antisymmetric(a[0], b[0]);
        let x = a.drop_first();
        let y = b.drop_first();
        assert(x =~= a.remove(0));
        assert(y =~= b.remove(0));
        assert forall|m: int, n: int| 0 <= m < n < x.len() implies lex_le(x[m], x[n]) by {
            assert(x[m] == a[m + 1] && x[n] == a[n + 1]);
        }
        assert forall|m: int, n: int| 0 <= m < n < y.len() implies lex_le(y[m], y[n]) by {
            assert(y[m] == b[m + 1] && y[n] == b[n + 1]);
        }
        vstd::seq_lib::to_multiset_remove(a, 0);
        vstd::seq_lib::to_multiset_remove(b, 0);
        lemma_sorted_is_unique(x, y);
        assert(a =~= seq![a[0]] + x);
        assert(b =~= seq![b[0]] + y);
    }
}

/// Whether `a` comes before `b`, or is `b`, in the order of strings.
pub fn chars_le(a: &Vec<char>, b: &Vec<char>) -> (r: bool)
    ensures
        r == lex_le(a@, b@),
{
    let mut i: usize = 0;
    proof {
        assert(a@.subrange(0, a.len() as int) =~= a@);
        assert(b@.subrange(0, b.len() as int) =~= b@);
    }
    while i < a.len() && i < b.len() && a[i] == b[i]
        invariant
            i <= a.len(),
            i <= b.len(),
            lex_le(a@, b@) == lex_le(
                a@.subrange(i as int, a.len() as int),
                b@.subrange(i as int, b.len() as int),
            ),
        decreases a.len() - i,
    {
        proof {
            assert(a@.subrange(i as int, a.len() as int).drop_first() =~= a@.subrange(
                i + 1,
                a.len() as int,
            ));
            assert(b@.subrange(i as int, b.len() as int).drop_first() =~= b@.subrange(
                i + 1,
                b.len() as int,
            ));
        }
        i = i + 1;
    }
    if i == a.len() {
        true
    } else if i == b.len() {
        false
    } else {
        (a[i] as u32) < (b[i] as u32)
    }
}

/// Puts `name` into the sorted `names`, behind the names that are `lex_le`
/// it.
pub fn insert_sorted(names: &mut Vec<Vec<char>>, name: Vec<char>)
    requires
        sorted(views_of(old(names)@)),
    ensures
        sorted(views_of(final(names)@)),
        views_of(final(names)@).to_multiset() == views_of(old(names)@).to_multiset().insert(
            name@,
        ),
{
    let ghost before = views_of(names@);
    let mut p: usize = 0;
    while p < names.len() && chars_le(&names[p], &name)
        invariant
            p <= names.len(),
            before == views_of(names@),
            forall|j: int| 0 <= j < p ==> lex_le(#[trigger] before[j], name@),
        decreases names.len() - p,
    {
        p = p + 1;
    }
    let ghost x = name@;
    names.insert(p, name);
    proof {
        let after = views_of(names@);
        assert(after =~= before.insert(p as int, x));
        assert(after.remove(p as int) =~= before);
        vstd::seq_lib::to_multiset_remove(after, p as int);
        after.to_multiset_ensures();
        assert(after.contains(x)) by {
            assert(after[p as int] == x);
        }
        assert(after.to_multiset() =~= before.to_multiset().insert(x));
        assert forall|i: int, j: int| 0 <= i < j < after.len() implies lex_le(
            after[i],
            after[j],
        ) by {
            if j < p {
                assert(after[i] == before[i] && after[j] == before[j]);
            } else if j == p {
                assert(after[i] == before[i]);
            } else {
                assert(after[j] == before[j - 1]);
                assert(p < before.len());
                lemma_lex_le_total(before[p as int], x);
                if p < j - 1 {
                    assert(lex_le(before[p as int], before[j - 1]));
                } else {
                    lemma_lex_le_reflexive(before[p as int]);
                }
                lemma_lex_le_transitive(x, before[p as int], before[j - 1]);
                if i < p {
                    assert(after[i] == before[i]);
                    assert(lex_le(before[i], before[j - 1]));
                } else if i > p {
                    assert(after[i] == before[i - 1]);
                    assert(lex_le(before[i - 1], before[j - 1]));
                }
            }
        }
    }
}

} // verus!
