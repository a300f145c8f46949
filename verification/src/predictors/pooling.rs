//! Pooling of predictions: each id keeps its highest probability.

use crate::predictors::probability::Probability;
use crate::predictors::ranking::Score;
use vstd::prelude::*;

verus! {

/// The first entry for `id` stands at `i`.
pub open spec fn first_at(scored: Seq<(u32, Probability)>, id: u32, i: int) -> bool {
    &&& 0 <= i < scored.len()
    &&& scored[i].0 == id
    &&& forall|j: int| 0 <= j < i ==> (#[trigger] scored[j]).0 != id
}

/// The higher of two probabilities.
pub open spec fn higher(a: Probability, b: Probability) -> Probability {
    if b.above(a) {
        b
    } else {
        a
    }
}

/// The scores with one more: an id that has one keeps the higher, another
/// comes last.
pub open spec fn absorbed(scored: Seq<(u32, Probability)>, id: u32, p: Probability) -> Seq<
    (u32, Probability),
> {
    if exists|i: int| first_at(scored, id, i) {
        let i = choose|i: int| first_at(scored, id, i);
        scored.update(i, (id, higher(scored[i].1, p)))
    } else {
        scored.push((id, p))
    }
}

/// The scores with a list of further ones.
pub open spec fn absorbed_all(
    scored: Seq<(u32, Probability)>,
    more: Seq<(u32, Probability)>,
) -> Seq<(u32, Probability)>
    decreases more.len(),
{
    if more.len() == 0 {
        scored
    } else {
        absorbed(absorbed_all(scored, more.drop_last()), more.last().0, more.last().1)
    }
}

/// Every entry has a usable probability.
pub open spec fn all_usable(scored: Seq<(u32, Probability)>) -> bool {
    forall|i: int| 0 <= i < scored.len() ==> (#[trigger] scored[i]).1.valid()
}

/// Adds one score.
pub fn absorb(scored: &mut Vec<(u32, Probability)>, id: u32, p: Probability)
    requires
        all_usable(old(scored)@),
        p.valid(),
    ensures
        all_usable(final(scored)@),
        final(scored)@ == absorbed(old(scored)@, id, p),
{
    let mut i: usize = 0;
    while i < scored.len()
        invariant
            i <= scored@.len(),
            scored@ == old(scored)@,
            all_usable(scored@),
            p.valid(),
            forall|j: int| 0 <= j < i ==> (#[trigger] scored@[j]).0 != id,
        decreases scored.len() - i,
    {
        if scored[i].0 == id {
            let kept = scored[i].1;
            proof {
                assert(first_at(scored@, id, i as int));
                let k = choose|k: int| first_at(scored@, id, k);
                assert(first_at(scored@, id, k));
                assert(k == i);
            }
            if p.is_above(&kept) {
                scored.set(i, (id, p));
            } else {
                scored.set(i, (id, kept));
            }
            return ;
        }
        i = i + 1;
    }
    assert forall|k: int| !first_at(scored@, id, k) by {}
    scored.push((id, p));
}

/// No id has two entries.
pub open spec fn ids_distinct(scored: Seq<(u32, Probability)>) -> bool {
    forall|i: int, j: int|
        0 <= i < j < scored.len() ==> (#[trigger] scored[i]).0 != (#[trigger] scored[j]).0
}

/// The entry for `id` has a probability no lower than `p`.
pub open spec fn covers(scored: Seq<(u32, Probability)>, id: u32, p: Probability) -> bool {
    exists|i: int| 0 <= i < scored.len() && (#[trigger] scored[i]).0 == id && !p.above(scored[i].1)
}

/// An id that has an entry has a first one.
proof fn lemma_first(scored: Seq<(u32, Probability)>, id: u32, i: int) -> (k: int)
    requires
        0 <= i < scored.len(),
        scored[i].0 == id,
    ensures
        first_at(scored, id, k),
        k <= i,
    decreases i,
{
    if exists|j: int| 0 <= j < i && (#[trigger] scored[j]).0 == id {
        let j = choose|j: int| 0 <= j < i && (#[trigger] scored[j]).0 == id;
        lemma_first(scored, id, j)
    } else {
        i
    }
}

/// Pooling one score keeps one entry for each id, covers the score, and covers
/// whatever was covered.
pub proof fn lemma_absorbed(scored: Seq<(u32, Probability)>, id: u32, p: Probability)
    requires
        all_usable(scored),
        p.valid(),
        ids_distinct(scored),
    ensures
        all_usable(absorbed(scored, id, p)),
        ids_distinct(absorbed(scored, id, p)),
        covers(absorbed(scored, id, p), id, p),
        forall|q: u32, r: Probability|
            r.valid() && #[trigger] covers(scored, q, r) ==> covers(absorbed(scored, id, p), q, r),
        forall|i: int|
            0 <= i < absorbed(scored, id, p).len() ==> #[trigger] absorbed(scored, id, p)[i] == (
                id,
                p,
            ) || (i < scored.len() && absorbed(scored, id, p)[i] == scored[i]),
{
    let after = absorbed(scored, id, p);
    if p.above(p) {
        Probability::asymmetric(p, p);
    }
    if exists|i: int| first_at(scored, id, i) {
        let i = choose|i: int| first_at(scored, id, i);
        assert(after[i].0 == id);
        if scored[i].1.above(p) {
            Probability::asymmetric(scored[i].1, p);
        }
        assert(covers(after, id, p));
        assert forall|q: u32, r: Probability| r.valid() && #[trigger] covers(
            scored,
            q,
            r,
        ) implies covers(after, q, r) by {
            let k = choose|k: int|
                0 <= k < scored.len() && (#[trigger] scored[k]).0 == q && !r.above(scored[k].1);
            assert(after[k].0 == q);
            if k == i && r.above(after[k].1) {
                Probability::weak_order(r, scored[k].1, p);
                if p.above(scored[k].1) {
                    Probability::asymmetric(p, scored[k].1);
                }
            }
        }
    } else {
        assert forall|i: int| 0 <= i < scored.len() implies (#[trigger] scored[i]).0 != id by {
            if scored[i].0 == id {
                let k = lemma_first(scored, id, i);
                assert(first_at(scored, id, k));
            }
        }
        assert(after[scored.len() as int] == (id, p));
        assert forall|q: u32, r: Probability| r.valid() && #[trigger] covers(
            scored,
            q,
            r,
        ) implies covers(after, q, r) by {
            let k = choose|k: int|
                0 <= k < scored.len() && (#[trigger] scored[k]).0 == q && !r.above(scored[k].1);
            assert(after[k] == scored[k]);
        }
    }
}

/// Pooling a list keeps one entry for each id, covers every score of the list
/// and whatever was covered, and makes up no score.
pub proof fn law_pooling(scored: Seq<(u32, Probability)>, more: Seq<(u32, Probability)>)
    requires
        all_usable(scored),
        all_usable(more),
        ids_distinct(scored),
    ensures
        all_usable(absorbed_all(scored, more)),
        ids_distinct(absorbed_all(scored, more)),
        forall|j: int|
            0 <= j < more.len() ==> covers(
                absorbed_all(scored, more),
                (#[trigger] more[j]).0,
                more[j].1,
            ),
        forall|q: u32, r: Probability|
            r.valid() && #[trigger] covers(scored, q, r) ==> covers(
                absorbed_all(scored, more),
                q,
                r,
            ),
        forall|i: int|
            0 <= i < absorbed_all(scored, more).len() ==> scored.contains(
                #[trigger] absorbed_all(scored, more)[i],
            ) || more.contains(absorbed_all(scored, more)[i]),
    decreases more.len(),
{
    if more.len() == 0 {
        assert forall|i: int| 0 <= i < scored.len() implies scored.contains(
            #[trigger] absorbed_all(scored, more)[i],
        ) by {
            assert(scored[i] == absorbed_all(scored, more)[i]);
        }
    } else {
        let rest = more.drop_last();
        assert forall|i: int| 0 <= i < rest.len() implies (#[trigger] rest[i]).1.valid() by {
            assert(rest[i] == more[i]);
        }
        law_pooling(scored, rest);
        let mid = absorbed_all(scored, rest);
        let (id, p) = more.last();
        lemma_absorbed(mid, id, p);
        let all = absorbed_all(scored, more);
        assert forall|j: int| 0 <= j < more.len() implies covers(
            all,
            (#[trigger] more[j]).0,
            more[j].1,
        ) by {
            if j < rest.len() {
                assert(rest[j] == more[j]);
                assert(covers(mid, rest[j].0, rest[j].1));
            }
        }
        assert forall|i: int| 0 <= i < all.len() implies scored.contains(#[trigger] all[i])
            || more.contains(all[i]) by {
            if all[i] == (id, p) {
                assert(more[more.len() - 1] == all[i]);
            } else {
                assert(all[i] == mid[i]);
                if rest.contains(mid[i]) {
                    let k = choose|k: int| 0 <= k < rest.len() && rest[k] == mid[i];
                    assert(more[k] == all[i]);
                }
            }
        }
    }
}

/// Pooling scores that are covered changes nothing.
pub proof fn law_covered_changes_nothing(
    scored: Seq<(u32, Probability)>,
    more: Seq<(u32, Probability)>,
)
    requires
        ids_distinct(scored),
        forall|j: int|
            0 <= j < more.len() ==> covers(scored, (#[trigger] more[j]).0, more[j].1),
    ensures
        absorbed_all(scored, more) == scored,
    decreases more.len(),
{
    if more.len() > 0 {
        let rest = more.drop_last();
        assert forall|j: int| 0 <= j < rest.len() implies covers(
            scored,
            (#[trigger] rest[j]).0,
            rest[j].1,
        ) by {
            assert(rest[j] == more[j]);
        }
        law_covered_changes_nothing(scored, rest);
        let (id, p) = more[more.len() - 1];
        assert(covers(scored, id, p));
        let i = choose|i: int|
            0 <= i < scored.len() && (#[trigger] scored[i]).0 == id && !p.above(scored[i].1);
        let k = lemma_first(scored, id, i);
        assert(first_at(scored, id, k));
        let c = choose|c: int| first_at(scored, id, c);
        assert(first_at(scored, id, c));
        if c < i {
            assert(scored[c].0 != scored[i].0);
        }
        assert(absorbed(scored, id, p) =~= scored);
    }
}

/// Pooling scores of other ids puts them behind, as they are.
pub proof fn law_fresh_put_behind(
    scored: Seq<(u32, Probability)>,
    more: Seq<(u32, Probability)>,
)
    requires
        ids_distinct(scored + more),
    ensures
        absorbed_all(scored, more) == scored + more,
    decreases more.len(),
{
    if more.len() > 0 {
        let rest = more.drop_last();
        let all = scored + more;
        let most = scored + rest;
        assert forall|i: int, j: int| 0 <= i < j < most.len() implies (#[trigger] most[i]).0 != (
        #[trigger] most[j]).0 by {
            assert(most[i] == all[i] && most[j] == all[j]);
        }
        law_fresh_put_behind(scored, rest);
        let id = more.last().0;
        assert forall|k: int| !first_at(most, id, k) by {
            if first_at(most, id, k) {
                assert(all[k] == most[k]);
                assert(all[all.len() - 1] == more.last());
            }
        }
        assert(most.push(more.last()) =~= all);
    } else {
        assert(scored + more =~= scored);
    }
}

/// One more score: the first entry of the id takes it where it is higher, and
/// keeps its place; an id without an entry is put behind. All other entries
/// stay as they are.
pub proof fn law_absorbed(scored: Seq<(u32, Probability)>, id: u32, p: Probability, at: int)
    ensures
        0 <= at < scored.len() && scored[at].0 == id && (forall|j: int|
            0 <= j < at ==> (#[trigger] scored[j]).0 != id) ==> absorbed(scored, id, p)
            == scored.update(
            at,
            (
                id,
                if p.num * scored[at].1.den > scored[at].1.num * p.den {
                    p
                } else {
                    scored[at].1
                },
            ),
        ),
        (forall|j: int| 0 <= j < scored.len() ==> (#[trigger] scored[j]).0 != id) ==> absorbed(
            scored,
            id,
            p,
        ) == scored.push((id, p)),
{
    if 0 <= at < scored.len() && scored[at].0 == id && (forall|j: int|
        0 <= j < at ==> (#[trigger] scored[j]).0 != id) {
        assert(first_at(scored, id, at));
        let k = choose|k: int| first_at(scored, id, k);
        assert(first_at(scored, id, k));
        assert(k == at);
    }
    if forall|j: int| 0 <= j < scored.len() ==> (#[trigger] scored[j]).0 != id {
        assert forall|k: int| !first_at(scored, id, k) by {}
    }
}

/// Pooling two lists is pooling one after the other, and pooling a single score
/// is adding it.
pub proof fn law_absorbed_in_turn(
    scored: Seq<(u32, Probability)>,
    a: Seq<(u32, Probability)>,
    b: Seq<(u32, Probability)>,
    one: (u32, Probability),
)
    ensures
        absorbed_all(scored, Seq::<(u32, Probability)>::empty()) == scored,
        absorbed_all(scored, seq![one]) == absorbed(scored, one.0, one.1),
        absorbed_all(scored, a + b) == absorbed_all(absorbed_all(scored, a), b),
    decreases b.len(),
{
    reveal_with_fuel(absorbed_all, 2);
    assert(seq![one].drop_last() =~= Seq::<(u32, Probability)>::empty());
    if b.len() == 0 {
        assert(a + b =~= a);
    } else {
        law_absorbed_in_turn(scored, a, b.drop_last(), one);
        assert((a + b).drop_last() =~= a + b.drop_last());
        assert((a + b).last() == b.last());
    }
}

} // verus!
