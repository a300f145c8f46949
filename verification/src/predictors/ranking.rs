//! Stable ranking by score.

use vstd::prelude::*;

verus! {

/// A score that items are ranked by: a strict order in which two different
/// scores may be level.
pub trait Score: Sized + Copy {
    /// The scores on which the order is defined.
    spec fn valid(self) -> bool;

    /// This score is strictly higher than `other`.
    spec fn above(self, other: Self) -> bool;

    proof fn asymmetric(x: Self, y: Self)
        requires
            x.valid(),
            y.valid(),
            x.above(y),
        ensures
            !y.above(x),
    ;

    proof fn weak_order(x: Self, y: Self, z: Self)
        requires
            x.valid(),
            y.valid(),
            z.valid(),
            x.above(z),
        ensures
            x.above(y) || y.above(z),
    ;

    /// Whether this score is strictly higher than `other`.
    fn is_above(&self, other: &Self) -> (b: bool)
        requires
            self.valid(),
            other.valid(),
        ensures
            b == self.above(*other),
    ;
}

impl Score for u64 {
    open spec fn valid(self) -> bool {
        true
    }

    open spec fn above(self, other: Self) -> bool {
        self > other
    }

    proof fn asymmetric(x: Self, y: Self) {
    }

    proof fn weak_order(x: Self, y: Self, z: Self) {
    }

    fn is_above(&self, other: &Self) -> (b: bool) {
        *self > *other
    }
}

impl Score for i64 {
    open spec fn valid(self) -> bool {
        true
    }

    open spec fn above(self, other: Self) -> bool {
        self > other
    }

    proof fn asymmetric(x: Self, y: Self) {
    }

    proof fn weak_order(x: Self, y: Self, z: Self) {
    }

    fn is_above(&self, other: &Self) -> (b: bool) {
        *self > *other
    }
}

pub open spec fn all_valid<S: Score>(keys: Seq<S>) -> bool {
    forall|i: int| 0 <= i < keys.len() ==> (#[trigger] keys[i]).valid()
}

/// Item `a` ranks before item `b`: it has the higher score, or a level score
/// and the earlier place.
pub open spec fn ranks_before<S: Score>(keys: Seq<S>, a: int, b: int) -> bool {
    keys[a].above(keys[b]) || (!keys[b].above(keys[a]) && a < b)
}

/// `order` has item `k`.
pub open spec fn listed(order: Seq<usize>, k: int) -> bool {
    exists|i: int| 0 <= i < order.len() && #[trigger] order[i] == k
}

/// `order` lists the place of every item once, ranked.
pub open spec fn is_ranking<S: Score>(keys: Seq<S>, order: Seq<usize>) -> bool {
    &&& order.len() == keys.len()
    &&& forall|i: int| 0 <= i < order.len() ==> (#[trigger] order[i]) < keys.len()
    &&& forall|k: int| 0 <= k < keys.len() ==> #[trigger] listed(order, k)
    &&& forall|i: int, j: int|
        0 <= i < j < order.len() ==> #[trigger] ranks_before(
            keys,
            order[i] as int,
            order[j] as int,
        )
}

/// The ranking; there is exactly one.
pub open spec fn ranked_order<S: Score>(keys: Seq<S>) -> Seq<usize> {
    choose|order: Seq<usize>| is_ranking(keys, order)
}

/// The places of the items, highest score first; items with level scores keep
/// their order.
pub fn ranking<S: Score>(keys: &Vec<S>) -> (order: Vec<usize>)
    requires
        all_valid(keys@),
    ensures
        is_ranking(keys@, order@),
        order@ == ranked_order(keys@),
{
    let mut order: Vec<usize> = Vec::new();
    let mut k: usize = 0;
    while k < keys.len()
        invariant
            all_valid(keys@),
            k <= keys.len(),
            order@.len() == k,
            forall|i: int| 0 <= i < order@.len() ==> (#[trigger] order@[i]) < k,
            forall|x: int| 0 <= x < k ==> #[trigger] listed(order@, x),
            forall|i: int, j: int|
                0 <= i < j < order@.len() ==> #[trigger] ranks_before(
                    keys@,
                    order@[i] as int,
                    order@[j] as int,
                ),
        decreases keys.len() - k,
    {
        let mut pos: usize = order.len();
        while pos > 0 && keys[k].is_above(&keys[order[pos - 1]])
            invariant
                all_valid(keys@),
                k < keys.len(),
                pos <= order@.len(),
                order@.len() == k,
                forall|i: int| 0 <= i < order@.len() ==> (#[trigger] order@[i]) < k,
                forall|i: int|
                    pos <= i < order@.len() ==> keys@[k as int].above(
                        keys@[(#[trigger] order@[i]) as int],
                    ),
            decreases pos,
        {
            pos = pos - 1;
        }
        let ghost before = order@;
        let ghost new = keys@[k as int];
        assert forall|i: int| 0 <= i < pos implies !new.above(
            keys@[(#[trigger] before[i]) as int],
        ) by {
            if i < pos - 1 && new.above(keys@[before[i] as int]) {
                let here = keys@[before[i] as int];
                let last = keys@[before[pos - 1] as int];
                assert(ranks_before(keys@, before[i] as int, before[pos - 1] as int));
                if here.above(last) {
                    S::asymmetric(here, last);
                }
                S::weak_order(new, last, here);
            }
        }
        order.insert(pos, k);
        proof {
            assert forall|i: int, j: int| 0 <= i < j < order@.len() implies #[trigger] ranks_before(
                keys@,
                order@[i] as int,
                order@[j] as int,
            ) by {
                if i < pos && j > pos {
                    assert(ranks_before(keys@, before[i] as int, before[j - 1] as int));
                } else if j < pos {
                    assert(ranks_before(keys@, before[i] as int, before[j] as int));
                } else if i > pos {
                    assert(ranks_before(keys@, before[i - 1] as int, before[j - 1] as int));
                } else if j == pos {
                    assert(order@[i] == before[i]);
                } else {
                    assert(order@[j] == before[j - 1]);
                }
            }
            assert forall|x: int| 0 <= x < k + 1 implies #[trigger] listed(order@, x) by {
                if x < k {
                    assert(listed(before, x));
                    let i = choose|i: int| 0 <= i < before.len() && #[trigger] before[i] == x;
                    if i < pos {
                        assert(order@[i] == x);
                    } else {
                        assert(order@[i + 1] == x);
                    }
                } else {
                    assert(order@[pos as int] == x);
                }
            }
        }
        k = k + 1;
    }
    proof {
        law_ranking_unique(keys@, order@, ranked_order(keys@));
    }
    order
}

/// The scores of scored ids.
pub open spec fn scores_of<S: Score>(scored: Seq<(u32, S)>) -> Seq<S> {
    Seq::new(scored.len(), |i: int| scored[i].1)
}

/// Scored ids, highest score first.
pub open spec fn ranked_pairs<S: Score>(scored: Seq<(u32, S)>) -> Seq<(u32, S)> {
    Seq::new(scored.len(), |i: int| scored[ranked_order(scores_of(scored))[i] as int])
}

/// Ranks scored ids; ids with level scores keep their order.
pub fn rank_pairs<S: Score>(scored: &Vec<(u32, S)>) -> (ranked: Vec<(u32, S)>)
    requires
        all_valid(scores_of(scored@)),
    ensures
        ranked@ == ranked_pairs(scored@),
{
    let mut keys: Vec<S> = Vec::new();
    let mut i: usize = 0;
    while i < scored.len()
        invariant
            i <= scored@.len(),
            keys@ == scores_of(scored@).take(i as int),
        decreases scored.len() - i,
    {
        keys.push(scored[i].1);
        assert(scores_of(scored@).take(i + 1) =~= scores_of(scored@).take(i as int).push(
            scored@[i as int].1,
        ));
        i = i + 1;
    }
    assert(keys@ =~= scores_of(scored@));
    let order = ranking(&keys);
    let mut ranked: Vec<(u32, S)> = Vec::new();
    let mut k: usize = 0;
    while k < order.len()
        invariant
            k <= order@.len(),
            keys@ == scores_of(scored@),
            is_ranking(keys@, order@),
            order@ == ranked_order(keys@),
            ranked@ == ranked_pairs(scored@).take(k as int),
        decreases order.len() - k,
    {
        ranked.push(scored[order[k]]);
        assert(ranked_pairs(scored@).take(k + 1) =~= ranked_pairs(scored@).take(k as int).push(
            scored@[order@[k as int] as int],
        ));
        k = k + 1;
    }
    assert(ranked@ =~= ranked_pairs(scored@));
    ranked
}

/// There is only one ranking.
pub proof fn law_ranking_unique<S: Score>(keys: Seq<S>, a: Seq<usize>, b: Seq<usize>)
    requires
        all_valid(keys),
        is_ranking(keys, a),
        is_ranking(keys, b),
    ensures
        a == b,
{
    lemma_same_prefix(keys, a, b, keys.len() as int);
    assert(a =~= b);
}

proof fn lemma_same_prefix<S: Score>(keys: Seq<S>, a: Seq<usize>, b: Seq<usize>, n: int)
    requires
        all_valid(keys),
        is_ranking(keys, a),
        is_ranking(keys, b),
        0 <= n <= keys.len(),
    ensures
        forall|i: int| 0 <= i < n ==> a[i] == b[i],
    decreases n,
{
    if n > 0 {
        let m = n - 1;
        lemma_same_prefix(keys, a, b, m);
        if a[m] != b[m] {
            assert(listed(b, a[m] as int));
            assert(listed(a, b[m] as int));
            let i = choose|i: int| 0 <= i < b.len() && #[trigger] b[i] == a[m] as int;
            let j = choose|j: int| 0 <= j < a.len() && #[trigger] a[j] == b[m] as int;
            if i < m {
                assert(a[i] == b[i]);
                lemma_irreflexive(keys, a, i, m);
            }
            if j < m {
                assert(a[j] == b[j]);
                lemma_irreflexive(keys, b, j, m);
            }
            assert(ranks_before(keys, b[m] as int, b[i] as int));
            assert(ranks_before(keys, a[m] as int, a[j] as int));
            let x = keys[a[m] as int];
            let y = keys[b[m] as int];
            if x.above(y) {
                S::asymmetric(x, y);
            }
            if y.above(x) {
                S::asymmetric(y, x);
            }
        }
    }
}

/// A ranking names no item twice.
pub proof fn lemma_irreflexive<S: Score>(keys: Seq<S>, order: Seq<usize>, i: int, j: int)
    requires
        all_valid(keys),
        is_ranking(keys, order),
        0 <= i < j < order.len(),
    ensures
        order[i] != order[j],
{
    assert(ranks_before(keys, order[i] as int, order[j] as int));
    let x = keys[order[i] as int];
    if x.above(x) {
        S::asymmetric(x, x);
    }
}

/// There is a ranking.
pub proof fn law_ranking_exists<S: Score>(keys: Seq<S>)
    requires
        all_valid(keys),
        keys.len() <= usize::MAX,
    ensures
        is_ranking(keys, ranked_order(keys)),
{
    let order = lemma_make_ranking(keys);
    assert(is_ranking(keys, order));
}

/// Where an item with score `new` goes among ranked ones, of which the first
/// `n` are left to look at.
proof fn lemma_cut<S: Score>(keys: Seq<S>, order: Seq<usize>, new: S, n: int) -> (pos: int)
    requires
        0 <= n <= order.len(),
        forall|i: int| n <= i < order.len() ==> new.above(keys[(#[trigger] order[i]) as int]),
    ensures
        0 <= pos <= n,
        forall|i: int| pos <= i < order.len() ==> new.above(keys[(#[trigger] order[i]) as int]),
        pos > 0 ==> !new.above(keys[order[pos - 1] as int]),
    decreases n,
{
    if n > 0 && new.above(keys[order[n - 1] as int]) {
        lemma_cut(keys, order, new, n - 1)
    } else {
        n
    }
}

proof fn lemma_make_ranking<S: Score>(keys: Seq<S>) -> (order: Seq<usize>)
    requires
        all_valid(keys),
        keys.len() <= usize::MAX,
    ensures
        is_ranking(keys, order),
    decreases keys.len(),
{
    if keys.len() == 0 {
        Seq::empty()
    } else {
        let rest = keys.drop_last();
        assert forall|i: int| 0 <= i < rest.len() implies (#[trigger] rest[i]).valid() by {
            assert(rest[i] == keys[i]);
        }
        let before = lemma_make_ranking(rest);
        let k = rest.len() as int;
        let new = keys[k];
        let pos = lemma_cut(keys, before, new, before.len() as int);
        assert forall|i: int, j: int| 0 <= i < j < before.len() implies #[trigger] ranks_before(
            keys,
            before[i] as int,
            before[j] as int,
        ) by {
            assert(ranks_before(rest, before[i] as int, before[j] as int));
        }
        assert forall|i: int| 0 <= i < pos implies !new.above(
            keys[(#[trigger] before[i]) as int],
        ) by {
            if i < pos - 1 && new.above(keys[before[i] as int]) {
                let here = keys[before[i] as int];
                let last = keys[before[pos - 1] as int];
                assert(ranks_before(keys, before[i] as int, before[pos - 1] as int));
                if here.above(last) {
                    S::asymmetric(here, last);
                }
                S::weak_order(new, last, here);
            }
        }
        let order = before.insert(pos, k as usize);
        assert forall|i: int, j: int| 0 <= i < j < order.len() implies #[trigger] ranks_before(
            keys,
            order[i] as int,
            order[j] as int,
        ) by {
            if i < pos && j > pos {
                assert(ranks_before(keys, before[i] as int, before[j - 1] as int));
            } else if j < pos {
                assert(ranks_before(keys, before[i] as int, before[j] as int));
            } else if i > pos {
                assert(ranks_before(keys, before[i - 1] as int, before[j - 1] as int));
            } else if j == pos {
                assert(order[i] == before[i]);
            } else {
                assert(order[j] == before[j - 1]);
            }
        }
        assert forall|x: int| 0 <= x < keys.len() implies #[trigger] listed(order, x) by {
            if x < k {
                assert(listed(before, x));
                let i = choose|i: int| 0 <= i < before.len() && #[trigger] before[i] == x;
                if i < pos {
                    assert(order[i] == x);
                } else {
                    assert(order[i + 1] == x);
                }
            } else {
                assert(order[pos] == x);
            }
        }
        order
    }
}

/// Ranked ids are those that were scored, and no later one scores higher than
/// an earlier one.
pub proof fn law_ranked_descend<S: Score>(scored: Seq<(u32, S)>)
    requires
        all_valid(scores_of(scored)),
        scored.len() <= usize::MAX,
    ensures
        ({
            let ranked = ranked_pairs(scored);
            &&& ranked.len() == scored.len()
            &&& forall|i: int, j: int|
                0 <= i < j < ranked.len() ==> !(#[trigger] ranked[j]).1.above(
                    (#[trigger] ranked[i]).1,
                )
            &&& forall|i: int| 0 <= i < ranked.len() ==> scored.contains(#[trigger] ranked[i])
            &&& forall|k: int| 0 <= k < scored.len() ==> ranked.contains(#[trigger] scored[k])
        }),
{
    let keys = scores_of(scored);
    law_ranking_exists(keys);
    let order = ranked_order(keys);
    let ranked = ranked_pairs(scored);
    assert forall|i: int, j: int| 0 <= i < j < ranked.len() implies !(
    #[trigger] ranked[j]).1.above((#[trigger] ranked[i]).1) by {
        assert(ranks_before(keys, order[i] as int, order[j] as int));
        let a = keys[order[i] as int];
        let b = keys[order[j] as int];
        if a.above(b) {
            S::asymmetric(a, b);
        }
    }
    assert forall|i: int| 0 <= i < ranked.len() implies scored.contains(#[trigger] ranked[i]) by {
        assert(scored[order[i] as int] == ranked[i]);
    }
    assert forall|k: int| 0 <= k < scored.len() implies ranked.contains(#[trigger] scored[k]) by {
        assert(listed(order, k));
        let i = choose|i: int| 0 <= i < order.len() && #[trigger] order[i] == k;
        assert(ranked[i] == scored[k]);
    }
}

/// Ids that are in the order of their scores stay as they are.
pub proof fn law_ranked_stays<S: Score>(scored: Seq<(u32, S)>)
    requires
        all_valid(scores_of(scored)),
        scored.len() <= usize::MAX,
        forall|i: int, j: int|
            0 <= i < j < scored.len() ==> !(#[trigger] scored[j]).1.above((#[trigger] scored[i]).1),
    ensures
        ranked_pairs(scored) == scored,
{
    let keys = scores_of(scored);
    let order = Seq::new(scored.len(), |i: int| i as usize);
    assert forall|k: int| 0 <= k < keys.len() implies #[trigger] listed(order, k) by {
        assert(order[k] == k);
    }
    assert forall|i: int, j: int| 0 <= i < j < order.len() implies #[trigger] ranks_before(
        keys,
        order[i] as int,
        order[j] as int,
    ) by {
        assert(!scored[j].1.above(scored[i].1));
    }
    assert(is_ranking(keys, order));
    law_ranking_unique(keys, order, ranked_order(keys));
    assert(ranked_pairs(scored) =~= scored);
}

/// The numbers are ranked by their size.
pub proof fn law_numbers_ranked(a: u64, b: u64, c: i64, d: i64)
    ensures
        a.above(b) <==> a > b,
        c.above(d) <==> c > d,
        a.valid(),
        c.valid(),
{
}

/// A ranking is a list of all places, each once, in which the item of a later
/// place has no higher score, and of two items with level scores the one that
/// stands first comes first.
pub proof fn law_ranking<S: Score>(keys: Seq<S>, i: int, j: int, k: int)
    requires
        forall|n: int| 0 <= n < keys.len() ==> (#[trigger] keys[n]).valid(),
        keys.len() <= usize::MAX,
    ensures
        ranked_order(keys).len() == keys.len(),
        0 <= i < keys.len() ==> ranked_order(keys)[i] < keys.len(),
        0 <= k < keys.len() ==> ranked_order(keys).contains(k as usize),
        0 <= i < j < keys.len() ==> {
            let (a, b) = (ranked_order(keys)[i] as int, ranked_order(keys)[j] as int);
            &&& a != b
            &&& !keys[b].above(keys[a])
            &&& !keys[a].above(keys[b]) ==> a < b
        },
{
    law_ranking_exists(keys);
    let order = ranked_order(keys);
    if 0 <= k < keys.len() {
        assert(listed(order, k));
        let n = choose|n: int| 0 <= n < order.len() && #[trigger] order[n] == k;
        assert(order[n] == k as usize);
    }
    if 0 <= i < j < keys.len() {
        lemma_irreflexive(keys, order, i, j);
        let (a, b) = (order[i] as int, order[j] as int);
        assert(ranks_before(keys, a, b));
        if keys[a].above(keys[b]) {
            S::asymmetric(keys[a], keys[b]);
        }
    }
}

/// Where two scored ids come to stand: each has one place among the ranked, and
/// the first of the two places is that of the higher score, or with level
/// scores that of the id which stood first.
pub proof fn law_ranked_places<S: Score>(scored: Seq<(u32, S)>, a: int, b: int) -> (places: (
    int,
    int,
))
    requires
        forall|n: int| 0 <= n < scored.len() ==> (#[trigger] scored[n]).1.valid(),
        scored.len() <= usize::MAX,
        0 <= a < scored.len(),
        0 <= b < scored.len(),
        a != b,
    ensures
        ({
            let (i, j) = places;
            let ranked = ranked_pairs(scored);
            &&& ranked.len() == scored.len()
            &&& 0 <= i < ranked.len()
            &&& 0 <= j < ranked.len()
            &&& i != j
            &&& ranked[i] == scored[a]
            &&& ranked[j] == scored[b]
            &&& i < j <==> scored[a].1.above(scored[b].1) || !scored[b].1.above(scored[a].1) && a
                < b
        }),
{
    let keys = scores_of(scored);
    let order = ranked_order(keys);
    assert forall|n: int| 0 <= n < keys.len() implies (#[trigger] keys[n]).valid() by {
        assert(scored[n].1.valid());
    }
    law_ranking(keys, 0, 0, a);
    law_ranking(keys, 0, 0, b);
    let i = choose|i: int| 0 <= i < order.len() && order[i] == a as usize;
    let j = choose|j: int| 0 <= j < order.len() && order[j] == b as usize;
    law_ranking(keys, i, j, 0);
    law_ranking(keys, j, i, 0);
    if scored[a].1.above(scored[b].1) {
        S::asymmetric(scored[a].1, scored[b].1);
    }
    (i, j)
}

} // verus!
