//! Counting in sequences of expert ids.

use vstd::prelude::*;

verus! {

/// How often `x` occurs in `s`.
pub open spec fn occurrences(s: Seq<u32>, x: int) -> nat
    decreases s.len(),
{
    if s.len() == 0 {
        0
    } else {
        occurrences(s.drop_last(), x) + if s.last() as int == x {
            1nat
        } else {
            0nat
        }
    }
}

pub proof fn lemma_push(s: Seq<u32>, y: u32, x: int)
    ensures
        occurrences(s.push(y), x) == occurrences(s, x) + if y as int == x {
            1nat
        } else {
            0nat
        },
{
    assert(s.push(y).drop_last() =~= s);
}

pub proof fn lemma_drop_first(s: Seq<u32>, x: int)
    requires
        s.len() > 0,
    ensures
        occurrences(s, x) == occurrences(s.drop_first(), x) + if s[0] as int == x {
            1nat
        } else {
            0nat
        },
    decreases s.len(),
{
    if s.len() > 1 {
        lemma_drop_first(s.drop_last(), x);
        assert(s.drop_last().drop_first() =~= s.drop_first().drop_last());
    } else {
        assert(s.drop_first() =~= Seq::<u32>::empty());
        assert(s.drop_last() =~= Seq::<u32>::empty());
        assert(occurrences(Seq::<u32>::empty(), x) == 0);
    }
}

/// The occurrences among the first `n + 1` ids.
pub proof fn lemma_take(s: Seq<u32>, n: int, x: int)
    requires
        0 <= n < s.len(),
    ensures
        occurrences(s.take(n + 1), x) == occurrences(s.take(n), x) + if s[n] as int == x {
            1nat
        } else {
            0nat
        },
{
    assert(s.take(n + 1).drop_last() =~= s.take(n));
}

pub proof fn lemma_bounds(s: Seq<u32>, x: int)
    ensures
        occurrences(s, x) <= s.len(),
        occurrences(s, x) > 0 <==> exists|i: int| 0 <= i < s.len() && #[trigger] s[i] == x,
    decreases s.len(),
{
    if s.len() > 0 {
        let rest = s.drop_last();
        lemma_bounds(rest, x);
        if exists|i: int| 0 <= i < s.len() && #[trigger] s[i] == x {
            let i = choose|i: int| 0 <= i < s.len() && #[trigger] s[i] == x;
            if i < rest.len() {
                assert(rest[i] == x);
            }
        }
        if exists|i: int| 0 <= i < rest.len() && #[trigger] rest[i] == x {
            let i = choose|i: int| 0 <= i < rest.len() && #[trigger] rest[i] == x;
            assert(s[i] == x);
        }
        if s.last() as int == x {
            assert(s[s.len() - 1] == x);
        }
    }
}

pub proof fn lemma_grows(s: Seq<u32>, n: int, x: int)
    requires
        0 <= n <= s.len(),
    ensures
        occurrences(s.take(n), x) <= occurrences(s, x),
    decreases s.len() - n,
{
    if n < s.len() {
        lemma_take(s, n, x);
        lemma_grows(s, n + 1, x);
    } else {
        assert(s.take(n) =~= s);
    }
}

/// The occurrences of an id are its multiplicity; those in two runs of ids add
/// up.
pub proof fn law_occurrences(a: Seq<u32>, b: Seq<u32>, x: u32)
    ensures
        occurrences(a, x as int) == a.to_multiset().count(x),
        occurrences(a + b, x as int) == occurrences(a, x as int) + occurrences(b, x as int),
{
    lemma_multiplicity(a, x);
    lemma_multiplicity(b, x);
    lemma_multiplicity(a + b, x);
    vstd::seq_lib::lemma_multiset_commutative(a, b);
}

proof fn lemma_multiplicity(s: Seq<u32>, x: u32)
    ensures
        occurrences(s, x as int) == s.to_multiset().count(x),
    decreases s.len(),
{
    s.to_multiset_ensures();
    if s.len() > 0 {
        let rest = s.drop_last();
        lemma_multiplicity(rest, x);
        rest.to_multiset_ensures();
        assert(rest.push(s.last()) =~= s);
        assert(s.to_multiset() =~= rest.to_multiset().insert(s.last()));
    }
}

} // verus!
