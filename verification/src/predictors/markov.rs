//! Online-trained second-order Markov transition model over expert routing
//! decisions.

use crate::predictors::pooling::absorb;
use crate::predictors::probability::Probability;
use crate::predictors::ranking::{rank_pairs, ranking, Score};
use std::collections::HashMap;
use vstd::prelude::*;

verus! {

/// How many second-order observations it takes to prefer them.
pub const MIN_2ND_ORDER_OBS: u64 = 10;

/// The count kept for `x`; one that is not kept is zero.
pub open spec fn tally(row: Map<u32, u64>, x: u32) -> nat {
    if row.contains_key(x) {
        row[x] as nat
    } else {
        0
    }
}

/// All ids name one of `n` experts.
pub open spec fn in_range(ids: Seq<u32>, n: nat) -> bool {
    forall|i: int| 0 <= i < ids.len() ==> (#[trigger] ids[i]) < n
}

/// How often `x` occurs in `ids`.
pub open spec fn times(ids: Seq<u32>, x: int) -> nat {
    crate::predictors::counting::occurrences(ids, x)
}

/// The number under which a pair of experts is kept.
pub open spec fn pair_number(pp: u32, p: u32) -> u64 {
    (pp * 0x1_0000_0000 + p) as u64
}

pub struct MarkovPredictor {
    num_experts: usize,
    trans1: Vec<HashMap<u32, u64>>,
    total1: Vec<u64>,
    trans2: HashMap<u64, Vec<u64>>,
    prev_set: Vec<u32>,
    prev_prev_set: Vec<u32>,
}

impl MarkovPredictor {
    pub closed spec fn experts(&self) -> nat {
        self.num_experts as nat
    }

    /// How often `x` was seen to follow expert `p`.
    pub closed spec fn follows(&self, p: u32, x: u32) -> nat {
        tally(self.trans1@[p as int]@, x)
    }

    /// How many followers of expert `p` were seen.
    pub closed spec fn followers(&self, p: u32) -> nat {
        self.total1@[p as int] as nat
    }

    /// Whether `p` was seen after `pp`.
    pub closed spec fn pair_seen(&self, pp: u32, p: u32) -> bool {
        self.trans2@.contains_key(pair_number(pp, p))
    }

    /// For each expert, how often it was seen to follow the pair.
    pub closed spec fn pair_row(&self, pp: u32, p: u32) -> Seq<u64> {
        self.trans2@[pair_number(pp, p)]@
    }

    /// How often `x` was seen to follow the pair.
    pub open spec fn pair_follows(&self, pp: u32, p: u32, x: int) -> nat {
        if self.pair_seen(pp, p) {
            self.pair_row(pp, p)[x] as nat
        } else {
            0
        }
    }

    /// The experts of the step before the latest.
    pub closed spec fn before_latest(&self) -> Seq<u32> {
        self.prev_prev_set@
    }

    /// The experts of the latest step.
    pub closed spec fn latest(&self) -> Seq<u32> {
        self.prev_set@
    }

    pub closed spec fn rows_match(&self) -> bool {
        &&& self.trans1@.len() == self.num_experts
        &&& self.total1@.len() == self.num_experts
        &&& forall|k: u64|
            self.trans2@.contains_key(k) ==> (#[trigger] self.trans2@[k])@.len()
                == self.num_experts
    }

    /// Every count belongs to an expert, and no follower is counted more often
    /// than all followers.
    pub open spec fn wf(&self) -> bool {
        &&& self.rows_match()
        &&& forall|pp: u32, p: u32| #[trigger]
            self.pair_seen(pp, p) ==> p < self.experts() && self.pair_row(pp, p).len()
                == self.experts()
        &&& forall|p: u32, x: u32|
            p < self.experts() ==> #[trigger] self.follows(p, x) <= self.followers(p)
    }

    pub fn new(num_experts: usize) -> (m: Self)
        ensures
            m.wf(),
            m.experts() == num_experts,
            forall|p: u32, x: u32| p < num_experts ==> #[trigger] m.follows(p, x) == 0,
            forall|p: u32| p < num_experts ==> #[trigger] m.followers(p) == 0,
            forall|pp: u32, p: u32| !#[trigger] m.pair_seen(pp, p),
            m.balanced(),
            m.before_latest() == Seq::<u32>::empty(),
            m.latest() == Seq::<u32>::empty(),
    {
        let mut trans1: Vec<HashMap<u32, u64>> = Vec::new();
        while trans1.len() < num_experts
            invariant
                trans1@.len() <= num_experts,
                forall|i: int|
                    0 <= i < trans1@.len() ==> (#[trigger] trans1@[i])@ == Map::<u32, u64>::empty(),
            decreases num_experts - trans1.len(),
        {
            trans1.push(HashMap::new());
        }
        let m = MarkovPredictor {
            num_experts,
            trans1,
            total1: vec![0; num_experts],
            trans2: HashMap::new(),
            prev_set: Vec::new(),
            prev_prev_set: Vec::new(),
        };
        proof {
            assert forall|p: u32| p < m.experts() implies #[trigger] row_sum(m.follower_counts(p))
                == m.followers(p) by {
                lemma_sum_of_zeros(m.follower_counts(p));
            }
        }
        m
    }

    /// The counts of what follows an expert sum to the number of its followers:
    /// every follower is an expert.
    pub open spec fn balanced(&self) -> bool {
        forall|p: u32|
            p < self.experts() ==> #[trigger] row_sum(self.follower_counts(p)) == self.followers(p)
    }

    /// Counting the step overflows no counter.
    pub open spec fn room(&self, prev_set: Seq<u32>, next_set: Seq<u32>) -> bool {
        &&& forall|p: u32|
            p < self.experts() ==> #[trigger] self.followers(p) + times(prev_set, p as int)
                * next_set.len() <= u64::MAX
        &&& forall|pp: u32, p: u32, x: int|
            0 <= x < self.experts() ==> #[trigger] self.pair_follows(pp, p, x) + times(
                self.before_latest(),
                pp as int,
            ) * times(prev_set, p as int) * times(next_set, x) <= u64::MAX
    }

    /// The step names experts only, and counting it overflows no counter.
    pub open spec fn observable(&self, prev_set: Seq<u32>, next_set: Seq<u32>) -> bool {
        &&& in_range(prev_set, self.experts())
        &&& self.before_latest().len() > 0 && prev_set.len() > 0 ==> in_range(
            next_set,
            self.experts(),
        )
        &&& self.room(prev_set, next_set)
    }
}

/// Counts each of `next_set`.
fn add_followers(row: &mut HashMap<u32, u64>, next_set: &[u32])
    requires
        forall|x: u32| #[trigger] tally(old(row)@, x) + times(next_set@, x as int) <= u64::MAX,
    ensures
        forall|x: u32| #[trigger]
            tally(final(row)@, x) == tally(old(row)@, x) + times(next_set@, x as int),
{
    let mut j: usize = 0;
    assert(next_set@.take(0) =~= Seq::<u32>::empty());
    while j < next_set.len()
        invariant
            j <= next_set@.len(),
            forall|x: u32| #[trigger] tally(old(row)@, x) + times(next_set@, x as int) <= u64::MAX,
            forall|x: u32| #[trigger]
                tally(row@, x) == tally(old(row)@, x) + times(next_set@.take(j as int), x as int),
        decreases next_set.len() - j,
    {
        let next = next_set[j];
        let seen: u64 = match row.get(&next) {
            Some(c) => *c,
            None => 0,
        };
        let ghost was = row@;
        proof {
            assert(seen == tally(was, next));
            assert(tally(old(row)@, next) + times(next_set@, next as int) <= u64::MAX);
            crate::predictors::counting::lemma_take(next_set@, j as int, next as int);
            crate::predictors::counting::lemma_grows(next_set@, j + 1, next as int);
        }
        row.insert(next, seen + 1);
        assert forall|x: u32| #[trigger] tally(row@, x) == tally(old(row)@, x) + times(
            next_set@.take(j + 1),
            x as int,
        ) by {
            assert(tally(was, x) == tally(old(row)@, x) + times(
                next_set@.take(j as int),
                x as int,
            ));
            crate::predictors::counting::lemma_take(next_set@, j as int, x as int);
        }
        j = j + 1;
    }
    assert(next_set@.take(j as int) =~= next_set@);
}

/// Counts each of `next_set` in a row with one counter for each expert.
fn add_to_row(row: &mut Vec<u64>, next_set: &[u32])
    requires
        in_range(next_set@, old(row)@.len()),
        forall|x: int|
            0 <= x < old(row)@.len() ==> #[trigger] old(row)@[x] + times(next_set@, x) <= u64::MAX,
    ensures
        final(row)@.len() == old(row)@.len(),
        forall|x: int|
            0 <= x < old(row)@.len() ==> #[trigger] final(row)@[x] == old(row)@[x] + times(
                next_set@,
                x,
            ),
{
    let mut j: usize = 0;
    assert(next_set@.take(0) =~= Seq::<u32>::empty());
    while j < next_set.len()
        invariant
            j <= next_set@.len(),
            row@.len() == old(row)@.len(),
            in_range(next_set@, old(row)@.len()),
            forall|x: int|
                0 <= x < old(row)@.len() ==> #[trigger] old(row)@[x] + times(next_set@, x)
                    <= u64::MAX,
            forall|x: int|
                0 <= x < old(row)@.len() ==> #[trigger] row@[x] == old(row)@[x] + times(
                    next_set@.take(j as int),
                    x,
                ),
        decreases next_set.len() - j,
    {
        let next = next_set[j];
        let ghost was = row@;
        proof {
            assert(old(row)@[next as int] + times(next_set@, next as int) <= u64::MAX);
            crate::predictors::counting::lemma_take(next_set@, j as int, next as int);
            crate::predictors::counting::lemma_grows(next_set@, j + 1, next as int);
        }
        let seen: u64 = row[next as usize];
        row.set(next as usize, seen + 1);
        assert forall|x: int| 0 <= x < old(row)@.len() implies #[trigger] row@[x] == old(row)@[x]
            + times(next_set@.take(j + 1), x) by {
            assert(was[x] == old(row)@[x] + times(next_set@.take(j as int), x));
            crate::predictors::counting::lemma_take(next_set@, j as int, x);
        }
        j = j + 1;
    }
    assert(next_set@.take(j as int) =~= next_set@);
}

/// One more id of `ids` adds `k` for the expert that it names.
proof fn lemma_one_more(ids: Seq<u32>, i: int, p: int, k: nat)
    requires
        0 <= i < ids.len(),
    ensures
        times(ids.take(i + 1), p) * k == times(ids.take(i), p) * k + if ids[i] == p {
            k
        } else {
            0
        },
        times(ids.take(i + 1), p) * k <= times(ids, p) * k,
{
    crate::predictors::counting::lemma_take(ids, i, p);
    crate::predictors::counting::lemma_grows(ids, i + 1, p);
    let a = times(ids.take(i), p);
    let b = times(ids.take(i + 1), p);
    let c = times(ids, p);
    assert((a + 1) * k == a * k + k) by (nonlinear_arith);
    assert(b * k <= c * k) by (nonlinear_arith)
        requires
            b <= c,
    ;
}

proof fn lemma_none(ids: Seq<u32>, p: int, k: nat)
    ensures
        times(ids.take(0), p) * k == 0,
{
    let a = times(ids.take(0), p);
    assert(a * k == 0) by (nonlinear_arith)
        requires
            a == 0,
    ;
}

impl MarkovPredictor {
    /// Counts the first-order transitions of a step.
    fn observe_first(&mut self, prev_set: &[u32], next_set: &[u32])
        requires
            old(self).wf(),
            in_range(prev_set@, old(self).experts()),
            forall|p: u32|
                p < old(self).experts() ==> #[trigger] old(self).followers(p) + times(
                    prev_set@,
                    p as int,
                ) * next_set@.len() <= u64::MAX,
        ensures
            final(self).wf(),
            final(self).num_experts == old(self).num_experts,
            final(self).trans2 == old(self).trans2,
            final(self).prev_set == old(self).prev_set,
            final(self).prev_prev_set == old(self).prev_prev_set,
            forall|p: u32, x: u32|
                p < old(self).experts() ==> #[trigger] final(self).follows(p, x) == old(
                    self,
                ).follows(p, x) + times(prev_set@, p as int) * times(next_set@, x as int),
            forall|p: u32|
                p < old(self).experts() ==> #[trigger] final(self).followers(p) == old(
                    self,
                ).followers(p) + times(prev_set@, p as int) * next_set@.len(),
    {
        let mut i: usize = 0;
        proof {
            assert forall|p: u32, x: u32| p < old(self).experts() implies #[trigger] self.follows(
                p,
                x,
            ) == old(self).follows(p, x) + times(prev_set@.take(0), p as int) * times(
                next_set@,
                x as int,
            ) by {
                lemma_none(prev_set@, p as int, times(next_set@, x as int));
            }
            assert forall|p: u32| p < old(self).experts() implies #[trigger] self.followers(p)
                == old(self).followers(p) + times(prev_set@.take(0), p as int)
                * next_set@.len() by {
                lemma_none(prev_set@, p as int, next_set@.len());
            }
        }
        while i < prev_set.len()
            invariant
                i <= prev_set@.len(),
                old(self).wf(),
                self.wf(),
                in_range(prev_set@, old(self).experts()),
                forall|p: u32|
                    p < old(self).experts() ==> #[trigger] old(self).followers(p) + times(
                        prev_set@,
                        p as int,
                    ) * next_set@.len() <= u64::MAX,
                self.num_experts == old(self).num_experts,
                self.trans2 == old(self).trans2,
                self.prev_set == old(self).prev_set,
                self.prev_prev_set == old(self).prev_prev_set,
                forall|p: u32, x: u32|
                    p < old(self).experts() ==> #[trigger] self.follows(p, x) == old(self).follows(
                        p,
                        x,
                    ) + times(prev_set@.take(i as int), p as int) * times(next_set@, x as int),
                forall|p: u32|
                    p < old(self).experts() ==> #[trigger] self.followers(p) == old(
                        self,
                    ).followers(p) + times(prev_set@.take(i as int), p as int) * next_set@.len(),
            decreases prev_set.len() - i,
        {
            let prev = prev_set[i];
            let ghost was = *self;
            let ghost k = next_set@.len();
            proof {
                assert(was.followers(prev) == old(self).followers(prev) + times(
                    prev_set@.take(i as int),
                    prev as int,
                ) * k);
                assert(old(self).followers(prev) + times(prev_set@, prev as int) * k <= u64::MAX);
                lemma_one_more(prev_set@, i as int, prev as int, k);
                assert forall|x: u32| #[trigger] tally(was.trans1@[prev as int]@, x) + times(
                    next_set@,
                    x as int,
                ) <= u64::MAX by {
                    assert(was.follows(prev, x) <= was.followers(prev));
                    crate::predictors::counting::lemma_bounds(next_set@, x as int);
                }
            }
            add_followers(&mut self.trans1[prev as usize], next_set);
            let seen: u64 = self.total1[prev as usize];
            self.total1.set(prev as usize, seen + next_set.len() as u64);
            proof {
                assert forall|p: u32| p < old(self).experts() implies #[trigger] self.followers(p)
                    == old(self).followers(p) + times(prev_set@.take(i + 1), p as int) * k by {
                    assert(was.followers(p) == old(self).followers(p) + times(
                        prev_set@.take(i as int),
                        p as int,
                    ) * k);
                    lemma_one_more(prev_set@, i as int, p as int, k);
                }
                assert forall|p: u32, x: u32| p < old(self).experts() implies #[trigger] self.follows(
                    p,
                    x,
                ) == old(self).follows(p, x) + times(prev_set@.take(i + 1), p as int) * times(
                    next_set@,
                    x as int,
                ) && self.follows(p, x) <= self.followers(p) by {
                    assert(was.follows(p, x) == old(self).follows(p, x) + times(
                        prev_set@.take(i as int),
                        p as int,
                    ) * times(next_set@, x as int));
                    assert(was.follows(p, x) <= was.followers(p));
                    lemma_one_more(prev_set@, i as int, p as int, times(next_set@, x as int));
                    crate::predictors::counting::lemma_bounds(next_set@, x as int);
                    if p == prev {
                        assert(self.follows(p, x) == was.follows(p, x) + times(
                            next_set@,
                            x as int,
                        ));
                    } else {
                        assert(self.follows(p, x) == was.follows(p, x));
                    }
                }
                assert forall|pp: u32, p: u32| #[trigger] self.pair_seen(pp, p) implies p
                    < self.experts() && self.pair_row(pp, p).len() == self.experts() by {
                    assert(was.pair_seen(pp, p));
                }
            }
            i = i + 1;
        }
        assert(prev_set@.take(i as int) =~= prev_set@);
    }

    /// The counts of all other pairs, and what else the model holds, are those
    /// of `other`.
    spec fn agrees_but(&self, other: &MarkovPredictor, pp: u32, p: u32) -> bool {
        &&& self.num_experts == other.num_experts
        &&& self.trans1 == other.trans1
        &&& self.total1 == other.total1
        &&& self.prev_set == other.prev_set
        &&& self.prev_prev_set == other.prev_prev_set
        &&& forall|q: u32, r: u32|
            (q, r) != (pp, p) ==> #[trigger] self.pair_seen(q, r) == other.pair_seen(q, r)
                && self.pair_row(q, r) == other.pair_row(q, r)
    }

    /// Counts what follows one pair.
    fn observe_pair(&mut self, pp: u32, p: u32, next_set: &[u32])
        requires
            old(self).wf(),
            p < old(self).experts(),
            in_range(next_set@, old(self).experts()),
            forall|x: int|
                0 <= x < old(self).experts() ==> #[trigger] old(self).pair_follows(pp, p, x)
                    + times(next_set@, x) <= u64::MAX,
        ensures
            final(self).wf(),
            final(self).agrees_but(old(self), pp, p),
            final(self).pair_seen(pp, p),
            forall|x: int|
                0 <= x < old(self).experts() ==> #[trigger] final(self).pair_follows(pp, p, x)
                    == old(self).pair_follows(pp, p, x) + times(next_set@, x),
    {
        let key: u64 = pp as u64 * 0x1_0000_0000 + p as u64;
        assert(key == pair_number(pp, p));
        let mut row: Vec<u64> = match self.trans2.remove(&key) {
            Some(row) => row,
            None => vec![0; self.num_experts],
        };
        proof {
            assert forall|x: int| 0 <= x < row@.len() implies #[trigger] row@[x] + times(
                next_set@,
                x,
            ) <= u64::MAX by {
                assert(row@[x] == old(self).pair_follows(pp, p, x));
            }
        }
        let ghost before = row@;
        add_to_row(&mut row, next_set);
        self.trans2.insert(key, row);
        proof {
            assert forall|x: int| 0 <= x < old(self).experts() implies #[trigger] self.pair_follows(
                pp,
                p,
                x,
            ) == old(self).pair_follows(pp, p, x) + times(next_set@, x) by {
                assert(before[x] == old(self).pair_follows(pp, p, x));
            }
            assert forall|q: u32, r: u32| (q, r) != (pp, p) implies #[trigger] self.pair_seen(q, r)
                == old(self).pair_seen(q, r) && self.pair_row(q, r) == old(self).pair_row(q, r) by {
                assert(pair_number(q, r) != key);
            }
            assert forall|q: u32, r: u32| #[trigger] self.pair_seen(q, r) implies r
                < self.experts() && self.pair_row(q, r).len() == self.experts() by {
                if (q, r) != (pp, p) {
                    assert(old(self).pair_seen(q, r));
                }
            }
            assert forall|q: u32, x: u32| q < self.experts() implies #[trigger] self.follows(q, x)
                <= self.followers(q) by {
                assert(old(self).follows(q, x) <= old(self).followers(q));
            }
        }
    }

    /// What the model holds apart from the pair counts is that of `other`.
    spec fn agrees_but_pairs(&self, other: &MarkovPredictor) -> bool {
        &&& self.num_experts == other.num_experts
        &&& self.trans1 == other.trans1
        &&& self.total1 == other.total1
        &&& self.prev_set == other.prev_set
        &&& self.prev_prev_set == other.prev_prev_set
    }

    /// Counts what follows the pairs of `pp` with each of `prev_set`.
    fn observe_after(&mut self, pp: u32, prev_set: &[u32], next_set: &[u32])
        requires
            old(self).wf(),
            in_range(prev_set@, old(self).experts()),
            prev_set@.len() > 0 ==> in_range(next_set@, old(self).experts()),
            forall|p: u32, x: int|
                0 <= x < old(self).experts() ==> #[trigger] old(self).pair_follows(pp, p, x)
                    + times(prev_set@, p as int) * times(next_set@, x) <= u64::MAX,
        ensures
            final(self).wf(),
            final(self).agrees_but_pairs(old(self)),
            forall|q: u32, p: u32| #[trigger]
                final(self).pair_seen(q, p) == (old(self).pair_seen(q, p) || (q == pp && times(
                    prev_set@,
                    p as int,
                ) > 0)),
            forall|q: u32, p: u32, x: int|
                0 <= x < old(self).experts() ==> #[trigger] final(self).pair_follows(q, p, x)
                    == old(self).pair_follows(q, p, x) + if q == pp {
                    times(prev_set@, p as int) * times(next_set@, x)
                } else {
                    0
                },
    {
        let mut i: usize = 0;
        proof {
            assert forall|q: u32, p: u32, x: int| 0 <= x
                < old(self).experts() implies #[trigger] self.pair_follows(q, p, x) == old(
                self,
            ).pair_follows(q, p, x) + if q == pp {
                times(prev_set@.take(0), p as int) * times(next_set@, x)
            } else {
                0
            } by {
                lemma_none(prev_set@, p as int, times(next_set@, x));
            }
        }
        while i < prev_set.len()
            invariant
                i <= prev_set@.len(),
                self.wf(),
                self.agrees_but_pairs(old(self)),
                in_range(prev_set@, old(self).experts()),
                prev_set@.len() > 0 ==> in_range(next_set@, old(self).experts()),
                forall|p: u32, x: int|
                    0 <= x < old(self).experts() ==> #[trigger] old(self).pair_follows(pp, p, x)
                        + times(prev_set@, p as int) * times(next_set@, x) <= u64::MAX,
                forall|q: u32, p: u32| #[trigger]
                    self.pair_seen(q, p) == (old(self).pair_seen(q, p) || (q == pp && times(
                        prev_set@.take(i as int),
                        p as int,
                    ) > 0)),
                forall|q: u32, p: u32, x: int|
                    0 <= x < old(self).experts() ==> #[trigger] self.pair_follows(q, p, x) == old(
                        self,
                    ).pair_follows(q, p, x) + if q == pp {
                        times(prev_set@.take(i as int), p as int) * times(next_set@, x)
                    } else {
                        0
                    },
            decreases prev_set.len() - i,
        {
            let prev = prev_set[i];
            let ghost was = *self;
            proof {
                assert forall|x: int| 0 <= x < was.experts() implies #[trigger] was.pair_follows(
                    pp,
                    prev,
                    x,
                ) + times(next_set@, x) <= u64::MAX by {
                    assert(old(self).pair_follows(pp, prev, x) + times(prev_set@, prev as int)
                        * times(next_set@, x) <= u64::MAX);
                    lemma_one_more(prev_set@, i as int, prev as int, times(next_set@, x));
                }
            }
            self.observe_pair(pp, prev, next_set);
            proof {
                assert forall|q: u32, p: u32| #[trigger] self.pair_seen(q, p) == (old(
                    self,
                ).pair_seen(q, p) || (q == pp && times(prev_set@.take(i + 1), p as int) > 0)) by {
                    assert(was.pair_seen(q, p) == (old(self).pair_seen(q, p) || (q == pp && times(
                        prev_set@.take(i as int),
                        p as int,
                    ) > 0)));
                    crate::predictors::counting::lemma_take(prev_set@, i as int, p as int);
                }
                assert forall|q: u32, p: u32, x: int| 0 <= x
                    < old(self).experts() implies #[trigger] self.pair_follows(q, p, x) == old(
                    self,
                ).pair_follows(q, p, x) + if q == pp {
                    times(prev_set@.take(i + 1), p as int) * times(next_set@, x)
                } else {
                    0
                } by {
                    assert(was.pair_follows(q, p, x) == old(self).pair_follows(q, p, x) + if q
                        == pp {
                        times(prev_set@.take(i as int), p as int) * times(next_set@, x)
                    } else {
                        0
                    });
                    lemma_one_more(prev_set@, i as int, p as int, times(next_set@, x));
                    if (q, p) != (pp, prev) {
                        assert(self.pair_seen(q, p) == was.pair_seen(q, p));
                    }
                }
            }
            i = i + 1;
        }
        assert(prev_set@.take(i as int) =~= prev_set@);
    }

    /// Counts the second-order transitions of a step.
    fn observe_second(&mut self, prev_set: &[u32], next_set: &[u32])
        requires
            old(self).wf(),
            in_range(prev_set@, old(self).experts()),
            old(self).before_latest().len() > 0 && prev_set@.len() > 0 ==> in_range(
                next_set@,
                old(self).experts(),
            ),
            forall|pp: u32, p: u32, x: int|
                0 <= x < old(self).experts() ==> #[trigger] old(self).pair_follows(pp, p, x)
                    + times(old(self).before_latest(), pp as int) * times(prev_set@, p as int)
                    * times(next_set@, x) <= u64::MAX,
        ensures
            final(self).wf(),
            final(self).agrees_but_pairs(old(self)),
            forall|pp: u32, p: u32| #[trigger]
                final(self).pair_seen(pp, p) == (old(self).pair_seen(pp, p) || (times(
                    old(self).before_latest(),
                    pp as int,
                ) > 0 && times(prev_set@, p as int) > 0)),
            forall|pp: u32, p: u32, x: int|
                0 <= x < old(self).experts() ==> #[trigger] final(self).pair_follows(pp, p, x)
                    == old(self).pair_follows(pp, p, x) + times(
                    old(self).before_latest(),
                    pp as int,
                ) * times(prev_set@, p as int) * times(next_set@, x),
    {
        let ghost pps = old(self).before_latest();
        let mut i: usize = 0;
        proof {
            assert forall|pp: u32, p: u32, x: int| 0 <= x
                < old(self).experts() implies #[trigger] self.pair_follows(pp, p, x) == old(
                self,
            ).pair_follows(pp, p, x) + times(pps.take(0), pp as int) * times(prev_set@, p as int)
                * times(next_set@, x) by {
                lemma_none3(pps, pp as int, times(prev_set@, p as int), times(next_set@, x));
            }
        }
        while i < self.prev_prev_set.len()
            invariant
                i <= pps.len(),
                pps == old(self).before_latest(),
                self.wf(),
                self.agrees_but_pairs(old(self)),
                in_range(prev_set@, old(self).experts()),
                pps.len() > 0 && prev_set@.len() > 0 ==> in_range(next_set@, old(self).experts()),
                forall|pp: u32, p: u32, x: int|
                    0 <= x < old(self).experts() ==> #[trigger] old(self).pair_follows(pp, p, x)
                        + times(pps, pp as int) * times(prev_set@, p as int) * times(next_set@, x)
                        <= u64::MAX,
                forall|pp: u32, p: u32| #[trigger]
                    self.pair_seen(pp, p) == (old(self).pair_seen(pp, p) || (times(
                        pps.take(i as int),
                        pp as int,
                    ) > 0 && times(prev_set@, p as int) > 0)),
                forall|pp: u32, p: u32, x: int|
                    0 <= x < old(self).experts() ==> #[trigger] self.pair_follows(pp, p, x) == old(
                        self,
                    ).pair_follows(pp, p, x) + times(pps.take(i as int), pp as int) * times(
                        prev_set@,
                        p as int,
                    ) * times(next_set@, x),
            decreases pps.len() - i,
        {
            let latest = self.prev_prev_set[i];
            let ghost was = *self;
            proof {
                assert forall|p: u32, x: int| 0 <= x
                    < was.experts() implies #[trigger] was.pair_follows(latest, p, x) + times(
                    prev_set@,
                    p as int,
                ) * times(next_set@, x) <= u64::MAX by {
                    assert(old(self).pair_follows(latest, p, x) + times(pps, latest as int)
                        * times(prev_set@, p as int) * times(next_set@, x) <= u64::MAX);
                    lemma_one_more3(
                        pps,
                        i as int,
                        latest as int,
                        times(prev_set@, p as int),
                        times(next_set@, x),
                    );
                }
            }
            self.observe_after(latest, prev_set, next_set);
            proof {
                assert forall|pp: u32, p: u32| #[trigger] self.pair_seen(pp, p) == (old(
                    self,
                ).pair_seen(pp, p) || (times(pps.take(i + 1), pp as int) > 0 && times(
                    prev_set@,
                    p as int,
                ) > 0)) by {
                    assert(was.pair_seen(pp, p) == (old(self).pair_seen(pp, p) || (times(
                        pps.take(i as int),
                        pp as int,
                    ) > 0 && times(prev_set@, p as int) > 0)));
                    crate::predictors::counting::lemma_take(pps, i as int, pp as int);
                }
                assert forall|pp: u32, p: u32, x: int| 0 <= x
                    < old(self).experts() implies #[trigger] self.pair_follows(pp, p, x) == old(
                    self,
                ).pair_follows(pp, p, x) + times(pps.take(i + 1), pp as int) * times(
                    prev_set@,
                    p as int,
                ) * times(next_set@, x) by {
                    assert(was.pair_follows(pp, p, x) == old(self).pair_follows(pp, p, x) + times(
                        pps.take(i as int),
                        pp as int,
                    ) * times(prev_set@, p as int) * times(next_set@, x));
                    lemma_one_more3(
                        pps,
                        i as int,
                        pp as int,
                        times(prev_set@, p as int),
                        times(next_set@, x),
                    );
                }
            }
            i = i + 1;
        }
        assert(pps.take(i as int) =~= pps);
    }

    /// This model is `before` with one more step counted: the transitions from
    /// `prev_set` to `next_set`, and those from the pairs that the experts of
    /// the step before form with `prev_set`.
    pub open spec fn counts_step(
        &self,
        before: &MarkovPredictor,
        prev_set: Seq<u32>,
        next_set: Seq<u32>,
    ) -> bool {
        &&& self.experts() == before.experts()
        &&& forall|p: u32, x: u32|
            p < before.experts() ==> #[trigger] self.follows(p, x) == before.follows(p, x) + times(
                prev_set,
                p as int,
            ) * times(next_set, x as int)
        &&& forall|p: u32|
            p < before.experts() ==> #[trigger] self.followers(p) == before.followers(p) + times(
                prev_set,
                p as int,
            ) * next_set.len()
        &&& forall|pp: u32, p: u32| #[trigger]
            self.pair_seen(pp, p) == (before.pair_seen(pp, p) || (times(
                before.before_latest(),
                pp as int,
            ) > 0 && times(prev_set, p as int) > 0))
        &&& forall|pp: u32, p: u32, x: int|
            0 <= x < before.experts() ==> #[trigger] self.pair_follows(pp, p, x)
                == before.pair_follows(pp, p, x) + times(before.before_latest(), pp as int) * times(
                prev_set,
                p as int,
            ) * times(next_set, x)
        &&& self.before_latest() == prev_set
        &&& self.latest() == next_set
    }

    /// Counts the transitions of a step from `prev_set` to `next_set`.
    pub fn observe_step(&mut self, prev_set: &[u32], next_set: &[u32])
        requires
            old(self).wf(),
            old(self).observable(prev_set@, next_set@),
        ensures
            final(self).wf(),
            final(self).counts_step(old(self), prev_set@, next_set@),
    {
        self.observe_first(prev_set, next_set);
        let ghost first = *self;
        proof {
            assert forall|pp: u32, p: u32, x: int| 0 <= x
                < first.experts() implies #[trigger] first.pair_follows(pp, p, x) + times(
                first.before_latest(),
                pp as int,
            ) * times(prev_set@, p as int) * times(next_set@, x) <= u64::MAX by {
                assert(first.pair_follows(pp, p, x) == old(self).pair_follows(pp, p, x));
            }
        }
        self.observe_second(prev_set, next_set);
        let ghost second = *self;
        self.prev_prev_set = vstd::slice::slice_to_vec(prev_set);
        self.prev_set = vstd::slice::slice_to_vec(next_set);
        proof {
            assert forall|p: u32, x: u32| p < self.experts() implies #[trigger] self.follows(p, x)
                == first.follows(p, x) && self.follows(p, x) <= self.followers(p) by {
                assert(first.follows(p, x) <= first.followers(p));
            }
            assert forall|p: u32| p < self.experts() implies #[trigger] self.followers(p)
                == first.followers(p) by {}
            assert forall|pp: u32, p: u32| #[trigger] self.pair_seen(pp, p) == second.pair_seen(
                pp,
                p,
            ) && self.pair_row(pp, p) == second.pair_row(pp, p) by {}
            assert forall|pp: u32, p: u32| #[trigger] first.pair_seen(pp, p) == old(
                self,
            ).pair_seen(pp, p) && first.pair_row(pp, p) == old(self).pair_row(pp, p) by {}
            assert forall|pp: u32, p: u32, x: int| 0 <= x
                < old(self).experts() implies #[trigger] self.pair_follows(pp, p, x) == old(
                self,
            ).pair_follows(pp, p, x) + times(old(self).before_latest(), pp as int) * times(
                prev_set@,
                p as int,
            ) * times(next_set@, x) by {
                assert(self.pair_follows(pp, p, x) == second.pair_follows(pp, p, x));
                assert(first.pair_follows(pp, p, x) == old(self).pair_follows(pp, p, x));
            }
        }
    }
}

proof fn lemma_none3(ids: Seq<u32>, p: int, k: nat, m: nat)
    ensures
        times(ids.take(0), p) * k * m == 0,
{
    lemma_none(ids, p, k);
    assert(0 * m == 0) by (nonlinear_arith);
}

proof fn lemma_one_more3(ids: Seq<u32>, i: int, p: int, k: nat, m: nat)
    requires
        0 <= i < ids.len(),
    ensures
        times(ids.take(i + 1), p) * k * m == times(ids.take(i), p) * k * m + if ids[i] == p {
            k * m
        } else {
            0
        },
        times(ids.take(i + 1), p) * k * m <= times(ids, p) * k * m,
{
    lemma_one_more(ids, i, p, k);
    let a = times(ids.take(i), p) * k;
    let b = times(ids.take(i + 1), p) * k;
    let c = times(ids, p) * k;
    assert((a + k) * m == a * m + k * m) by (nonlinear_arith);
    assert(b * m <= c * m) by (nonlinear_arith)
        requires
            b <= c,
    ;
}

/// The sum of a row of counts.
pub open spec fn row_sum(row: Seq<u64>) -> nat
    decreases row.len(),
{
    if row.len() == 0 {
        0
    } else {
        row_sum(row.drop_last()) + row.last() as nat
    }
}

/// The experts with their smoothed shares, highest count first.
pub open spec fn shares(counts: Seq<u64>, total: u64, experts: nat) -> Seq<(u32, Probability)> {
    let order = crate::predictors::ranking::ranked_order(counts);
    Seq::new(
        counts.len(),
        |i: int|
            (
                order[i] as u32,
                crate::predictors::probability::laplace(counts[order[i] as int], total, experts),
            ),
    )
}

/// Every expert with the same share.
pub open spec fn uniform(experts: nat) -> Seq<(u32, Probability)> {
    Seq::new(
        (experts as u32) as nat,
        |i: int| (i as u32, crate::predictors::probability::laplace(0, 0, experts)),
    )
}

impl MarkovPredictor {
    /// The first-order counts of what follows `p`.
    pub open spec fn follower_counts(&self, p: u32) -> Seq<u64> {
        Seq::new(self.experts(), |i: int| self.follows(p, i as u32) as u64)
    }

    /// Enough was seen of the pair to go by it.
    pub open spec fn pair_known(&self, pp: Option<u32>, p: u32) -> bool {
        match pp {
            Some(q) => self.pair_seen(q, p) && row_sum(self.pair_row(q, p)) >= MIN_2ND_ORDER_OBS,
            None => false,
        }
    }

    /// What is expected to follow `p` after `pp`: by the counts of the pair
    /// where enough was seen of it, else by the counts of `p`; with nothing
    /// seen, every expert alike.
    pub open spec fn prediction(&self, pp: Option<u32>, p: u32) -> Seq<(u32, Probability)> {
        if self.pair_known(pp, p) {
            let row = self.pair_row(pp->0, p);
            shares(row, row_sum(row) as u64, self.experts())
        } else if self.followers(p) > 0 {
            shares(self.follower_counts(p), self.followers(p) as u64, self.experts())
        } else {
            uniform(self.experts())
        }
    }

    /// The counts of the pair can be summed.
    pub open spec fn summable(&self, pp: Option<u32>, p: u32) -> bool {
        match pp {
            Some(q) => self.pair_seen(q, p) ==> row_sum(self.pair_row(q, p)) <= u64::MAX,
            None => true,
        }
    }

    /// The experts that are expected to follow `prev` after `prev_prev`, most
    /// likely first.
    pub fn predict_next(&self, prev_prev: Option<u32>, prev: u32) -> (preds: Vec<
        (u32, Probability),
    >)
        requires
            self.wf(),
            prev < self.experts(),
            self.summable(prev_prev, prev),
        ensures
            preds@ == self.prediction(prev_prev, prev),
    {
        if let Some(pp) = prev_prev {
            let key: u64 = pp as u64 * 0x1_0000_0000 + prev as u64;
            assert(key == pair_number(pp, prev));
            if let Some(row) = self.trans2.get(&key) {
                assert(self.pair_seen(pp, prev));
                assert(row@ == self.pair_row(pp, prev));
                let total = sum_row(row);
                if total >= MIN_2ND_ORDER_OBS {
                    return self.probabilities_from_counts(row, total);
                }
            }
        }
        let total: u64 = self.total1[prev as usize];
        if total > 0 {
            let mut counts: Vec<u64> = Vec::new();
            let mut i: usize = 0;
            while i < self.num_experts
                invariant
                    self.wf(),
                    prev < self.experts(),
                    i <= self.num_experts,
                    counts@ == self.follower_counts(prev).take(i as int),
                decreases self.num_experts - i,
            {
                let c: u64 = match self.trans1[prev as usize].get(&(i as u32)) {
                    Some(c) => *c,
                    None => 0,
                };
                assert(c == self.follows(prev, i as u32));
                counts.push(c);
                assert(self.follower_counts(prev).take(i + 1) =~= self.follower_counts(prev).take(
                    i as int,
                ).push(c));
                i = i + 1;
            }
            assert(counts@ =~= self.follower_counts(prev));
            return self.probabilities_from_counts(&counts, total);
        }
        let mut preds: Vec<(u32, Probability)> = Vec::new();
        let mut id: u32 = 0;
        while id < self.num_experts as u32
            invariant
                id <= self.num_experts as u32,
                preds@ == uniform(self.experts()).take(id as int),
            decreases self.num_experts as u32 - id,
        {
            preds.push((id, Probability::smoothed(0, 0, self.num_experts)));
            assert(uniform(self.experts()).take(id + 1) =~= uniform(self.experts()).take(
                id as int,
            ).push((id, crate::predictors::probability::laplace(0, 0, self.experts()))));
            id = id + 1;
        }
        assert(preds@ =~= uniform(self.experts()));
        preds
    }

    /// The smoothed shares of a row of counts, highest first.
    fn probabilities_from_counts(&self, counts: &Vec<u64>, total: u64) -> (preds: Vec<
        (u32, Probability),
    >)
        ensures
            preds@ == shares(counts@, total, self.experts()),
    {
        let order = ranking(counts);
        let mut preds: Vec<(u32, Probability)> = Vec::new();
        let mut i: usize = 0;
        while i < order.len()
            invariant
                i <= order@.len(),
                crate::predictors::ranking::is_ranking(counts@, order@),
                order@ == crate::predictors::ranking::ranked_order(counts@),
                preds@ == shares(counts@, total, self.experts()).take(i as int),
            decreases order.len() - i,
        {
            let id = order[i];
            preds.push((id as u32, Probability::smoothed(counts[id], total, self.num_experts)));
            assert(shares(counts@, total, self.experts()).take(i + 1) =~= shares(
                counts@,
                total,
                self.experts(),
            ).take(i as int).push(preds@.last()));
            i = i + 1;
        }
        assert(preds@ =~= shares(counts@, total, self.experts()));
        preds
    }
}

/// The sum of a row of counts.
fn sum_row(row: &Vec<u64>) -> (total: u64)
    requires
        row_sum(row@) <= u64::MAX,
    ensures
        total == row_sum(row@),
{
    let mut total: u64 = 0;
    let mut i: usize = 0;
    while i < row.len()
        invariant
            i <= row@.len(),
            row_sum(row@) <= u64::MAX,
            total == row_sum(row@.take(i as int)),
        decreases row.len() - i,
    {
        assert(row@.take(i + 1).drop_last() =~= row@.take(i as int));
        proof {
            lemma_sum_grows(row@, i + 1);
        }
        total = total + row[i];
        i = i + 1;
    }
    assert(row@.take(i as int) =~= row@);
    total
}

proof fn lemma_sum_grows(row: Seq<u64>, n: int)
    requires
        0 <= n <= row.len(),
    ensures
        row_sum(row.take(n)) <= row_sum(row),
    decreases row.len() - n,
{
    if n < row.len() {
        assert(row.take(n + 1).drop_last() =~= row.take(n));
        lemma_sum_grows(row, n + 1);
    } else {
        assert(row.take(n) =~= row);
    }
}

impl MarkovPredictor {
    /// For each id that is expected after some expert of `prev_set`, its
    /// highest probability, in order of first appearance.
    pub open spec fn pooled(&self, pp: Option<u32>, prev_set: Seq<u32>) -> Seq<(u32, Probability)>
        decreases prev_set.len(),
    {
        if prev_set.len() == 0 {
            Seq::empty()
        } else {
            crate::predictors::pooling::absorbed_all(
                self.pooled(pp, prev_set.drop_last()),
                self.prediction(pp, prev_set.last()),
            )
        }
    }

    /// The last expert of a set, which stands for the set in pairs.
    pub open spec fn last_of(set: Seq<u32>) -> Option<u32> {
        if set.len() == 0 {
            None
        } else {
            Some(set.last())
        }
    }

    /// The experts that are expected to follow any of `prev_set`, most likely
    /// first; each with its highest probability.
    pub fn predict_for_set(&self, prev_prev_set: &[u32], prev_set: &[u32]) -> (preds: Vec<
        (u32, Probability),
    >)
        requires
            self.wf(),
            in_range(prev_set@, self.experts()),
            forall|i: int|
                0 <= i < prev_set@.len() ==> self.summable(
                    Self::last_of(prev_prev_set@),
                    #[trigger] prev_set@[i],
                ),
        ensures
            preds@ == crate::predictors::ranking::ranked_pairs(
                self.pooled(Self::last_of(prev_prev_set@), prev_set@),
            ),
    {
        let mut scored: Vec<(u32, Probability)> = Vec::new();
        let pp: Option<u32> = if prev_prev_set.len() > 0 {
            Some(prev_prev_set[prev_prev_set.len() - 1])
        } else {
            None
        };
        let mut i: usize = 0;
        while i < prev_set.len()
            invariant
                self.wf(),
                in_range(prev_set@, self.experts()),
                pp == Self::last_of(prev_prev_set@),
                forall|k: int|
                    0 <= k < prev_set@.len() ==> self.summable(pp, #[trigger] prev_set@[k]),
                i <= prev_set@.len(),
                crate::predictors::pooling::all_usable(scored@),
                scored@ == self.pooled(pp, prev_set@.take(i as int)),
            decreases prev_set.len() - i,
        {
            let prev = prev_set[i];
            let ghost start = scored@;
            let found = self.predict_next(pp, prev);
            proof {
                lemma_prediction_usable(self, pp, prev);
            }
            let mut k: usize = 0;
            assert(found@.take(0) =~= Seq::<(u32, Probability)>::empty());
            while k < found.len()
                invariant
                    k <= found@.len(),
                    crate::predictors::pooling::all_usable(found@),
                    crate::predictors::pooling::all_usable(scored@),
                    scored@ == crate::predictors::pooling::absorbed_all(start, found@.take(k as int)),
                decreases found.len() - k,
            {
                let (id, p) = found[k];
                assert(found@[k as int].1.valid());
                absorb(&mut scored, id, p);
                assert(found@.take(k + 1).drop_last() =~= found@.take(k as int));
                k = k + 1;
            }
            assert(found@.take(k as int) =~= found@);
            assert(prev_set@.take(i + 1).drop_last() =~= prev_set@.take(i as int));
            i = i + 1;
        }
        assert(prev_set@.take(i as int) =~= prev_set@);
        assert forall|j: int| 0 <= j < scored@.len() implies (
        #[trigger] crate::predictors::ranking::scores_of(scored@)[j]).valid() by {
            assert(scored@[j].1.valid());
        }
        rank_pairs(&scored)
    }
}

/// A prediction holds usable probabilities.
proof fn lemma_prediction_usable(m: &MarkovPredictor, pp: Option<u32>, p: u32)
    requires
        m.wf(),
        p < m.experts(),
        m.summable(pp, p),
    ensures
        crate::predictors::pooling::all_usable(m.prediction(pp, p)),
{
}

/// How often `x` occurs in `ids`.
fn count_of(ids: &[u32], x: u32) -> (n: usize)
    ensures
        n == times(ids@, x as int),
{
    let mut n: usize = 0;
    let mut i: usize = 0;
    assert(ids@.take(0) =~= Seq::<u32>::empty());
    while i < ids.len()
        invariant
            i <= ids@.len(),
            n <= i,
            n == times(ids@.take(i as int), x as int),
        decreases ids.len() - i,
    {
        proof {
            crate::predictors::counting::lemma_take(ids@, i as int, x as int);
        }
        if ids[i] == x {
            n = n + 1;
        }
        i = i + 1;
    }
    assert(ids@.take(i as int) =~= ids@);
    n
}

/// Whether all ids name one of `n` experts.
fn all_in_range(ids: &[u32], n: usize) -> (b: bool)
    ensures
        b == in_range(ids@, n as nat),
{
    let mut i: usize = 0;
    while i < ids.len()
        invariant
            i <= ids@.len(),
            forall|k: int| 0 <= k < i ==> (#[trigger] ids@[k]) < n,
        decreases ids.len() - i,
    {
        if ids[i] as u64 >= n as u64 {
            return false;
        }
        i = i + 1;
    }
    true
}

/// Whether `start + a * b * c` is at most `u64::MAX`.
fn sum_fits(start: u64, a: usize, b: usize, c: usize) -> (fits: bool)
    ensures
        fits == (start + a * b * c <= u64::MAX),
{
    let ghost whole = a * b * c;
    if a == 0 || b == 0 || c == 0 {
        assert(whole == 0) by (nonlinear_arith)
            requires
                whole == a * b * c,
                a == 0 || b == 0 || c == 0,
        ;
        return true;
    }
    assert(whole >= a * b) by (nonlinear_arith)
        requires
            whole == a * b * c,
            a * b >= 0,
            c >= 1,
    ;
    match (a as u64).checked_mul(b as u64) {
        None => false,
        Some(ab) => match ab.checked_mul(c as u64) {
            None => false,
            Some(abc) => match start.checked_add(abc) {
                None => false,
                Some(_) => true,
            },
        },
    }
}

/// An id occurs exactly when it stands somewhere.
proof fn lemma_found(ids: Seq<u32>, x: int) -> (i: int)
    requires
        times(ids, x) > 0,
    ensures
        0 <= i < ids.len(),
        ids[i] == x,
{
    crate::predictors::counting::lemma_bounds(ids, x);
    choose|i: int| 0 <= i < ids.len() && #[trigger] ids[i] == x
}

impl MarkovPredictor {
    /// How often `x` was seen to follow the pair.
    fn pair_count(&self, pp: u32, p: u32, x: u32) -> (n: u64)
        requires
            self.wf(),
            x < self.experts(),
        ensures
            n == self.pair_follows(pp, p, x as int),
    {
        let key: u64 = pp as u64 * 0x1_0000_0000 + p as u64;
        assert(key == pair_number(pp, p));
        match self.trans2.get(&key) {
            Some(row) => {
                assert(self.pair_seen(pp, p));
                assert(row@ == self.pair_row(pp, p));
                row[x as usize]
            },
            None => 0,
        }
    }

    /// Whether the first-order counters have room for the step.
    fn first_fits(&self, prev_set: &[u32], next_set: &[u32]) -> (b: bool)
        requires
            self.wf(),
            in_range(prev_set@, self.experts()),
        ensures
            b == (forall|p: u32|
                p < self.experts() ==> #[trigger] self.followers(p) + times(prev_set@, p as int)
                    * next_set@.len() <= u64::MAX),
    {
        let len = next_set.len();
        let mut i: usize = 0;
        while i < prev_set.len()
            invariant
                self.wf(),
                in_range(prev_set@, self.experts()),
                len == next_set@.len(),
                i <= prev_set@.len(),
                forall|k: int|
                    0 <= k < i ==> self.followers(#[trigger] prev_set@[k]) + times(
                        prev_set@,
                        prev_set@[k] as int,
                    ) * next_set@.len() <= u64::MAX,
            decreases prev_set.len() - i,
        {
            let p = prev_set[i];
            let seen = count_of(prev_set, p);
            assert(seen * len * 1 == seen * len) by (nonlinear_arith);
            if !sum_fits(self.total1[p as usize], seen, len, 1) {
                assert(self.followers(p) + times(prev_set@, p as int) * next_set@.len()
                    > u64::MAX);
                return false;
            }
            i = i + 1;
        }
        proof {
            assert forall|p: u32| p < self.experts() implies #[trigger] self.followers(p) + times(
                prev_set@,
                p as int,
            ) * next_set@.len() <= u64::MAX by {
                if times(prev_set@, p as int) > 0 {
                    let k = lemma_found(prev_set@, p as int);
                    assert(prev_set@[k] == p);
                } else {
                    assert(0 * next_set@.len() == 0) by (nonlinear_arith);
                }
            }
        }
        true
    }

    /// Whether the counters of the pair have room for the step.
    fn pair_fits(&self, pp: u32, p: u32, pairs: usize, prevs: usize, next_set: &[u32]) -> (b: bool)
        requires
            self.wf(),
            in_range(next_set@, self.experts()),
        ensures
            b == (forall|x: int|
                0 <= x < self.experts() ==> #[trigger] self.pair_follows(pp, p, x) + pairs * prevs
                    * times(next_set@, x) <= u64::MAX),
    {
        let mut i: usize = 0;
        while i < next_set.len()
            invariant
                self.wf(),
                in_range(next_set@, self.experts()),
                i <= next_set@.len(),
                forall|k: int|
                    0 <= k < i ==> self.pair_follows(pp, p, (#[trigger] next_set@[k]) as int)
                        + pairs * prevs * times(next_set@, next_set@[k] as int) <= u64::MAX,
            decreases next_set.len() - i,
        {
            let x = next_set[i];
            let nexts = count_of(next_set, x);
            if !sum_fits(self.pair_count(pp, p, x), pairs, prevs, nexts) {
                assert(self.pair_follows(pp, p, x as int) + pairs * prevs * times(
                    next_set@,
                    x as int,
                ) > u64::MAX);
                return false;
            }
            i = i + 1;
        }
        proof {
            let a = pairs * prevs;
            assert forall|x: int| 0 <= x < self.experts() implies #[trigger] self.pair_follows(
                pp,
                p,
                x,
            ) + pairs * prevs * times(next_set@, x) <= u64::MAX by {
                if times(next_set@, x) > 0 {
                    let k = lemma_found(next_set@, x);
                    assert(next_set@[k] == x);
                } else {
                    assert(a * 0 == 0) by (nonlinear_arith);
                }
            }
        }
        true
    }

    /// Whether the second-order counters have room for the step.
    fn second_fits(&self, prev_set: &[u32], next_set: &[u32]) -> (b: bool)
        requires
            self.wf(),
            in_range(next_set@, self.experts()),
        ensures
            b == (forall|pp: u32, p: u32, x: int|
                0 <= x < self.experts() ==> #[trigger] self.pair_follows(pp, p, x) + times(
                    self.before_latest(),
                    pp as int,
                ) * times(prev_set@, p as int) * times(next_set@, x) <= u64::MAX),
    {
        let ghost pps = self.before_latest();
        let mut i: usize = 0;
        while i < self.prev_prev_set.len()
            invariant
                self.wf(),
                in_range(next_set@, self.experts()),
                pps == self.before_latest(),
                i <= pps.len(),
                forall|k: int, m: int, x: int|
                    0 <= k < i && 0 <= m < prev_set@.len() && 0 <= x < self.experts()
                        ==> #[trigger] self.pair_follows(pps[k], prev_set@[m], x) + times(
                        pps,
                        pps[k] as int,
                    ) * times(prev_set@, prev_set@[m] as int) * times(next_set@, x) <= u64::MAX,
            decreases pps.len() - i,
        {
            let pp = self.prev_prev_set[i];
            let pairs = count_of(self.prev_prev_set.as_slice(), pp);
            let mut j: usize = 0;
            while j < prev_set.len()
                invariant
                    self.wf(),
                    in_range(next_set@, self.experts()),
                    pps == self.before_latest(),
                    i < pps.len(),
                    pp == pps[i as int],
                    pairs == times(pps, pp as int),
                    j <= prev_set@.len(),
                    forall|m: int, x: int|
                        0 <= m < j && 0 <= x < self.experts() ==> #[trigger] self.pair_follows(
                            pp,
                            prev_set@[m],
                            x,
                        ) + pairs * times(prev_set@, prev_set@[m] as int) * times(next_set@, x)
                            <= u64::MAX,
                decreases prev_set.len() - j,
            {
                let p = prev_set[j];
                let prevs = count_of(prev_set, p);
                if !self.pair_fits(pp, p, pairs, prevs, next_set) {
                    return false;
                }
                j = j + 1;
            }
            i = i + 1;
        }
        proof {
            assert forall|pp: u32, p: u32, x: int| 0 <= x
                < self.experts() implies #[trigger] self.pair_follows(pp, p, x) + times(
                pps,
                pp as int,
            ) * times(prev_set@, p as int) * times(next_set@, x) <= u64::MAX by {
                let a = times(pps, pp as int);
                let b = times(prev_set@, p as int);
                let c = times(next_set@, x);
                if a > 0 && b > 0 {
                    let k = lemma_found(pps, pp as int);
                    let m = lemma_found(prev_set@, p as int);
                    assert(self.pair_follows(pps[k], prev_set@[m], x) + times(pps, pps[k] as int)
                        * times(prev_set@, prev_set@[m] as int) * c <= u64::MAX);
                } else {
                    assert(a * b * c == 0) by (nonlinear_arith)
                        requires
                            a == 0 || b == 0,
                    ;
                }
            }
        }
        true
    }

    /// Whether the step can be observed: it names experts only, and counting
    /// it overflows no counter.
    pub fn can_observe(&self, prev_set: &[u32], next_set: &[u32]) -> (b: bool)
        requires
            self.wf(),
        ensures
            b == self.observable(prev_set@, next_set@),
    {
        if !all_in_range(prev_set, self.num_experts) {
            return false;
        }
        if !self.first_fits(prev_set, next_set) {
            return false;
        }
        if self.prev_prev_set.len() == 0 || prev_set.len() == 0 {
            proof {
                assert forall|pp: u32, p: u32, x: int| 0 <= x
                    < self.experts() implies #[trigger] self.pair_follows(pp, p, x) + times(
                    self.before_latest(),
                    pp as int,
                ) * times(prev_set@, p as int) * times(next_set@, x) <= u64::MAX by {
                    let a = times(self.before_latest(), pp as int);
                    let b = times(prev_set@, p as int);
                    let c = times(next_set@, x);
                    assert(a * b * c == 0) by (nonlinear_arith)
                        requires
                            a == 0 || b == 0,
                    ;
                }
            }
            return true;
        }
        if !all_in_range(next_set, self.num_experts) {
            return false;
        }
        self.second_fits(prev_set, next_set)
    }

    /// Whether all ids name experts.
    pub fn knows(&self, ids: &[u32]) -> (b: bool)
        ensures
            b == in_range(ids@, self.experts()),
    {
        all_in_range(ids, self.num_experts)
    }

    /// Whether the counts of the pair can be summed.
    pub fn can_sum(&self, prev_prev: Option<u32>, prev: u32) -> (b: bool)
        requires
            self.wf(),
        ensures
            b == self.summable(prev_prev, prev),
    {
        let pp = match prev_prev {
            Some(pp) => pp,
            None => {
                return true;
            },
        };
        let key: u64 = pp as u64 * 0x1_0000_0000 + prev as u64;
        assert(key == pair_number(pp, prev));
        match self.trans2.get(&key) {
            None => true,
            Some(row) => {
                assert(self.pair_seen(pp, prev));
                assert(row@ == self.pair_row(pp, prev));
                let mut total: u64 = 0;
                let mut i: usize = 0;
                while i < row.len()
                    invariant
                        i <= row@.len(),
                        prev_prev == Some(pp),
                        self.pair_seen(pp, prev),
                        row@ == self.pair_row(pp, prev),
                        total == row_sum(row@.take(i as int)),
                    decreases row.len() - i,
                {
                    assert(row@.take(i + 1).drop_last() =~= row@.take(i as int));
                    proof {
                        lemma_sum_grows(row@, i + 1);
                    }
                    match total.checked_add(row[i]) {
                        Some(sum) => {
                            total = sum;
                        },
                        None => {
                            return false;
                        },
                    }
                    i = i + 1;
                }
                assert(row@.take(i as int) =~= row@);
                true
            },
        }
    }
}

/// The list has an entry for `x`.
pub open spec fn lists(list: Seq<(u32, Probability)>, x: u32) -> bool {
    exists|i: int| 0 <= i < list.len() && #[trigger] list[i].0 == x
}

/// The shares of a row list every expert, a higher count before a lower one,
/// and of two level counts the lower expert first.
pub proof fn law_shares_ranked(counts: Seq<u64>, total: u64, experts: nat)
    requires
        counts.len() <= 0x1_0000_0000,
        counts.len() <= usize::MAX,
    ensures
        ({
            let list = shares(counts, total, experts);
            &&& list.len() == counts.len()
            &&& forall|i: int|
                0 <= i < list.len() ==> (#[trigger] list[i]).0 < counts.len() && list[i].1
                    == crate::predictors::probability::laplace(
                    counts[list[i].0 as int],
                    total,
                    experts,
                )
            &&& forall|x: u32| x < counts.len() ==> #[trigger] lists(list, x)
            &&& forall|i: int, j: int|
                0 <= i < j < list.len() ==> {
                    let a = (#[trigger] list[i]).0;
                    let b = (#[trigger] list[j]).0;
                    counts[a as int] > counts[b as int] || (counts[a as int] == counts[b as int]
                        && a < b)
                }
        }),
{
    crate::predictors::ranking::law_ranking_exists(counts);
    let order = crate::predictors::ranking::ranked_order(counts);
    let list = shares(counts, total, experts);
    assert forall|x: u32| x < counts.len() implies #[trigger] lists(list, x) by {
        assert(crate::predictors::ranking::listed(order, x as int));
        let i = choose|i: int| 0 <= i < order.len() && #[trigger] order[i] == x as int;
        assert(list[i].0 == x);
    }
    assert forall|i: int, j: int| 0 <= i < j < list.len() implies {
        let a = (#[trigger] list[i]).0;
        let b = (#[trigger] list[j]).0;
        counts[a as int] > counts[b as int] || (counts[a as int] == counts[b as int] && a < b)
    } by {
        assert(crate::predictors::ranking::ranks_before(counts, order[i] as int, order[j] as int));
    }
}

/// The expert that was seen to follow more often than any other is predicted
/// first.
pub proof fn law_most_frequent_first(m: &MarkovPredictor, pp: Option<u32>, p: u32, x: u32)
    requires
        m.wf(),
        m.experts() <= u32::MAX,
        p < m.experts(),
        x < m.experts(),
        !m.pair_known(pp, p),
        m.follows(p, x) > 0,
        forall|y: u32| y < m.experts() && y != x ==> #[trigger] m.follows(p, y) < m.follows(p, x),
    ensures
        m.prediction(pp, p).len() == m.experts(),
        m.prediction(pp, p)[0].0 == x,
{
    let counts = m.follower_counts(p);
    let list = shares(counts, m.followers(p) as u64, m.experts());
    law_shares_ranked(counts, m.followers(p) as u64, m.experts());
    assert(m.follows(p, x) <= m.followers(p));
    assert(lists(list, x));
    let i = choose|i: int| 0 <= i < list.len() && #[trigger] list[i].0 == x;
    let first = list[0].0;
    assert(counts[first as int] == m.follows(p, first));
    assert(counts[x as int] == m.follows(p, x));
    if i > 0 {
        assert(counts[list[0].0 as int] >= counts[list[i].0 as int]);
    }
}

/// Once a pair was seen often enough, its own counts decide: the expert that
/// followed the pair more often than any other is predicted first.
pub proof fn law_pair_decides(m: &MarkovPredictor, pp: u32, p: u32, x: u32)
    requires
        m.wf(),
        m.experts() <= u32::MAX,
        x < m.experts(),
        m.pair_known(Some(pp), p),
        forall|y: u32|
            y < m.experts() && y != x ==> #[trigger] m.pair_follows(pp, p, y as int)
                < m.pair_follows(pp, p, x as int),
    ensures
        m.prediction(Some(pp), p).len() == m.experts(),
        m.prediction(Some(pp), p)[0].0 == x,
{
    let counts = m.pair_row(pp, p);
    let total = row_sum(counts) as u64;
    let list = shares(counts, total, m.experts());
    law_shares_ranked(counts, total, m.experts());
    assert(lists(list, x));
    let i = choose|i: int| 0 <= i < list.len() && #[trigger] list[i].0 == x;
    let first = list[0].0;
    assert(counts[first as int] == m.pair_follows(pp, p, first as int));
    assert(counts[x as int] == m.pair_follows(pp, p, x as int));
    if i > 0 {
        assert(counts[list[0].0 as int] >= counts[list[i].0 as int]);
    }
}

/// The sum of the numerators.
pub open spec fn num_sum(list: Seq<(u32, Probability)>) -> nat
    decreases list.len(),
{
    if list.len() == 0 {
        0
    } else {
        num_sum(list.drop_last()) + list.last().1.num as nat
    }
}

/// The shares of a row that is counted in full sum to one.
pub proof fn law_shares_sum_to_one(counts: Seq<u64>, total: u64)
    requires
        row_sum(counts) == total,
        counts.len() <= usize::MAX,
    ensures
        num_sum(shares(counts, total, counts.len())) == total + counts.len(),
        forall|i: int|
            0 <= i < counts.len() ==> (#[trigger] shares(counts, total, counts.len())[i]).1.den
                == total + counts.len(),
{
    crate::predictors::ranking::law_ranking_exists(counts);
    let order = crate::predictors::ranking::ranked_order(counts);
    let list = shares(counts, total, counts.len());
    assert forall|i: int, j: int| 0 <= i < j < order.len() implies order[i] != order[j] by {
        crate::predictors::ranking::lemma_irreflexive(counts, order, i, j);
    }
    lemma_picked_all(counts, order);
    lemma_num_sum(counts, order, list, list.len() as int);
    assert(list.take(list.len() as int) =~= list);
    assert(order.take(list.len() as int) =~= order);
}

/// The sum of the counts at the places that `order` lists, each with one added.
spec fn picked(counts: Seq<u64>, order: Seq<usize>) -> nat
    decreases order.len(),
{
    if order.len() == 0 {
        0
    } else {
        picked(counts, order.drop_last()) + counts[order.last() as int] as nat + 1
    }
}

proof fn lemma_num_sum(
    counts: Seq<u64>,
    order: Seq<usize>,
    list: Seq<(u32, Probability)>,
    n: int,
)
    requires
        0 <= n <= list.len() == order.len(),
        forall|i: int|
            0 <= i < list.len() ==> (#[trigger] list[i]).1.num == counts[order[i] as int] + 1,
    ensures
        num_sum(list.take(n)) == picked(counts, order.take(n)),
    decreases n,
{
    if n > 0 {
        lemma_num_sum(counts, order, list, n - 1);
        assert(list.take(n).drop_last() =~= list.take(n - 1));
        assert(order.take(n).drop_last() =~= order.take(n - 1));
        assert(list.take(n).last() == list[n - 1]);
        assert(order.take(n).last() == order[n - 1]);
    }
}

/// Taking one place out takes its count out.
proof fn lemma_picked_without(counts: Seq<u64>, order: Seq<usize>, k: int)
    requires
        0 <= k < order.len(),
    ensures
        picked(counts, order) == picked(counts, order.remove(k)) + counts[order[k] as int] + 1,
    decreases order.len(),
{
    let rest = order.drop_last();
    if k < rest.len() {
        lemma_picked_without(counts, rest, k);
        assert(order.remove(k).drop_last() =~= rest.remove(k));
        assert(order.remove(k).last() == order.last());
    } else {
        assert(order.remove(k) =~= rest);
    }
}

/// Places that list every count once pick the whole row.
proof fn lemma_picked_all(counts: Seq<u64>, order: Seq<usize>)
    requires
        order.len() == counts.len(),
        forall|i: int| 0 <= i < order.len() ==> (#[trigger] order[i]) < counts.len(),
        forall|i: int, j: int| 0 <= i < j < order.len() ==> order[i] != order[j],
        forall|k: int|
            0 <= k < counts.len() ==> #[trigger] crate::predictors::ranking::listed(order, k),
    ensures
        picked(counts, order) == row_sum(counts) + counts.len(),
    decreases counts.len(),
{
    if counts.len() > 0 {
        let last = counts.len() - 1;
        let rest = counts.drop_last();
        assert(crate::predictors::ranking::listed(order, last));
        let k = choose|k: int| 0 <= k < order.len() && #[trigger] order[k] == last;
        let others = order.remove(k);
        assert forall|i: int| 0 <= i < others.len() implies (#[trigger] others[i]) < rest.len() by {
            if i < k {
                assert(others[i] == order[i]);
                assert(order[i] != order[k]);
            } else {
                assert(others[i] == order[i + 1]);
                assert(order[k] != order[i + 1]);
            }
        }
        assert forall|i: int, j: int| 0 <= i < j < others.len() implies others[i]
            != others[j] by {
            let a = if i < k {
                i
            } else {
                i + 1
            };
            let b = if j < k {
                j
            } else {
                j + 1
            };
            assert(order[a] != order[b]);
        }
        assert forall|x: int| 0 <= x < rest.len() implies #[trigger] crate::predictors::ranking::listed(
            others,
            x,
        ) by {
            assert(crate::predictors::ranking::listed(order, x));
            let i = choose|i: int| 0 <= i < order.len() && #[trigger] order[i] == x;
            if i < k {
                assert(others[i] == x);
            } else {
                assert(others[i - 1] == x);
            }
        }
        lemma_picked_all(rest, others);
        lemma_picked_without(counts, order, k);
        lemma_picked_prefix(counts, rest, others);
    }
}

/// The last count does not matter where its place is not listed.
proof fn lemma_picked_prefix(counts: Seq<u64>, rest: Seq<u64>, order: Seq<usize>)
    requires
        rest.len() <= counts.len(),
        forall|i: int| 0 <= i < rest.len() ==> #[trigger] rest[i] == counts[i],
        forall|i: int| 0 <= i < order.len() ==> (#[trigger] order[i]) < rest.len(),
    ensures
        picked(counts, order) == picked(rest, order),
    decreases order.len(),
{
    if order.len() > 0 {
        let fewer = order.drop_last();
        assert forall|i: int| 0 <= i < fewer.len() implies (#[trigger] fewer[i]) < rest.len() by {
            assert(fewer[i] == order[i]);
        }
        lemma_picked_prefix(counts, rest, fewer);
        assert(order[order.len() - 1] < rest.len());
    }
}

/// With nothing seen, each of `n` experts has the share `1 / n`.
pub proof fn law_cold_start(m: &MarkovPredictor, pp: Option<u32>, p: u32)
    requires
        m.wf(),
        m.experts() <= u32::MAX,
        m.followers(p) == 0,
        !m.pair_known(pp, p),
    ensures
        m.prediction(pp, p).len() == m.experts(),
        forall|i: int|
            0 <= i < m.experts() ==> #[trigger] m.prediction(pp, p)[i] == (
                i as u32,
                (Probability { num: 1, den: m.experts() as u128 }),
            ),
{
}

/// A prediction for a set has one entry for each id, with the highest
/// probability that the id has after any expert of the set.
pub proof fn law_set_prediction(m: &MarkovPredictor, pp: Option<u32>, prev_set: Seq<u32>)
    requires
        m.wf(),
        in_range(prev_set, m.experts()),
        forall|i: int| 0 <= i < prev_set.len() ==> m.summable(pp, #[trigger] prev_set[i]),
    ensures
        crate::predictors::pooling::all_usable(m.pooled(pp, prev_set)),
        crate::predictors::pooling::ids_distinct(m.pooled(pp, prev_set)),
        forall|k: int, j: int|
            0 <= k < prev_set.len() && 0 <= j < m.prediction(pp, prev_set[k]).len()
                ==> crate::predictors::pooling::covers(
                m.pooled(pp, prev_set),
                (#[trigger] m.prediction(pp, prev_set[k])[j]).0,
                m.prediction(pp, prev_set[k])[j].1,
            ),
        forall|i: int|
            0 <= i < m.pooled(pp, prev_set).len() ==> exists|k: int|
                0 <= k < prev_set.len() && (#[trigger] m.prediction(pp, prev_set[k])).contains(
                    #[trigger] m.pooled(pp, prev_set)[i],
                ),
    decreases prev_set.len(),
{
    if prev_set.len() > 0 {
        let rest = prev_set.drop_last();
        assert forall|i: int| 0 <= i < rest.len() implies m.summable(pp, #[trigger] rest[i]) by {
            assert(rest[i] == prev_set[i]);
        }
        assert(in_range(rest, m.experts())) by {
            assert forall|i: int| 0 <= i < rest.len() implies (#[trigger] rest[i])
                < m.experts() by {
                assert(rest[i] == prev_set[i]);
            }
        }
        law_set_prediction(m, pp, rest);
        let last = prev_set[prev_set.len() - 1];
        let found = m.prediction(pp, last);
        lemma_prediction_usable(m, pp, last);
        let mid = m.pooled(pp, rest);
        let all = m.pooled(pp, prev_set);
        crate::predictors::pooling::law_pooling(mid, found);
        assert forall|k: int, j: int|
            0 <= k < prev_set.len() && 0 <= j < m.prediction(
                pp,
                prev_set[k],
            ).len() implies crate::predictors::pooling::covers(
            all,
            (#[trigger] m.prediction(pp, prev_set[k])[j]).0,
            m.prediction(pp, prev_set[k])[j].1,
        ) by {
            if k < rest.len() {
                assert(rest[k] == prev_set[k]);
                let entry = m.prediction(pp, rest[k])[j];
                lemma_prediction_usable(m, pp, rest[k]);
                assert(crate::predictors::pooling::covers(mid, entry.0, entry.1));
            } else {
                assert(found[j] == m.prediction(pp, prev_set[k])[j]);
            }
        }
        assert forall|i: int| 0 <= i < all.len() implies exists|k: int|
            0 <= k < prev_set.len() && (#[trigger] m.prediction(pp, prev_set[k])).contains(
                #[trigger] all[i],
            ) by {
            if found.contains(all[i]) {
                assert(m.prediction(pp, prev_set[prev_set.len() - 1]).contains(all[i]));
            } else {
                assert(mid.contains(all[i]));
                let n = choose|n: int| 0 <= n < mid.len() && mid[n] == all[i];
                let k = choose|k: int|
                    0 <= k < rest.len() && (#[trigger] m.prediction(pp, rest[k])).contains(mid[n]);
                assert(m.prediction(pp, prev_set[k]).contains(all[i]));
            }
        }
    }
}

/// A row of zeros sums to zero.
proof fn lemma_sum_of_zeros(row: Seq<u64>)
    requires
        forall|i: int| 0 <= i < row.len() ==> #[trigger] row[i] == 0,
    ensures
        row_sum(row) == 0,
    decreases row.len(),
{
    if row.len() > 0 {
        let rest = row.drop_last();
        assert forall|i: int| 0 <= i < rest.len() implies #[trigger] rest[i] == 0 by {
            assert(rest[i] == row[i]);
        }
        lemma_sum_of_zeros(rest);
    }
}

/// How often the first `n` experts occur in `ids`, all together.
spec fn times_below(ids: Seq<u32>, n: nat) -> nat
    decreases n,
{
    if n == 0 {
        0
    } else {
        times_below(ids, (n - 1) as nat) + times(ids, n - 1)
    }
}

proof fn lemma_times_below_push(ids: Seq<u32>, y: u32, n: nat)
    ensures
        times_below(ids.push(y), n) == times_below(ids, n) + if y < n {
            1nat
        } else {
            0nat
        },
    decreases n,
{
    if n > 0 {
        lemma_times_below_push(ids, y, (n - 1) as nat);
        crate::predictors::counting::lemma_push(ids, y, n - 1);
    }
}

/// Ids in range are all counted.
proof fn lemma_times_below_all(ids: Seq<u32>, n: nat)
    requires
        in_range(ids, n),
    ensures
        times_below(ids, n) == ids.len(),
    decreases ids.len(),
{
    if ids.len() == 0 {
        lemma_times_below_none(ids, n);
    } else {
        let rest = ids.drop_last();
        assert forall|i: int| 0 <= i < rest.len() implies (#[trigger] rest[i]) < n by {
            assert(rest[i] == ids[i]);
        }
        lemma_times_below_all(rest, n);
        assert(ids[ids.len() - 1] < n);
        lemma_times_below_push(rest, ids.last(), n);
        assert(rest.push(ids.last()) =~= ids);
    }
}

proof fn lemma_times_below_none(ids: Seq<u32>, n: nat)
    requires
        ids.len() == 0,
    ensures
        times_below(ids, n) == 0,
    decreases n,
{
    if n > 0 {
        lemma_times_below_none(ids, (n - 1) as nat);
    }
}

/// Adding `k` times the counts of `ids` to a row adds as much to its sum.
proof fn lemma_sum_added(before: Seq<u64>, after: Seq<u64>, ids: Seq<u32>, k: nat, n: int)
    requires
        0 <= n <= before.len() == after.len(),
        forall|i: int|
            0 <= i < before.len() ==> #[trigger] after[i] == before[i] + k * times(ids, i),
    ensures
        row_sum(after.take(n)) == row_sum(before.take(n)) + k * times_below(ids, n as nat),
    decreases n,
{
    if n > 0 {
        lemma_sum_added(before, after, ids, k, n - 1);
        assert(after.take(n).drop_last() =~= after.take(n - 1));
        assert(before.take(n).drop_last() =~= before.take(n - 1));
        let (a, b) = (times_below(ids, (n - 1) as nat), times(ids, n - 1));
        assert(k * (a + b) == k * a + k * b) by (nonlinear_arith);
        assert(after[n - 1] == before[n - 1] + k * b);
    } else {
        assert(k * 0 == 0) by (nonlinear_arith);
    }
}

/// As long as every follower is an expert, the counts of what follows an expert
/// sum to the number of its followers.
pub proof fn law_step_keeps_balance(
    before: &MarkovPredictor,
    after: &MarkovPredictor,
    prev_set: Seq<u32>,
    next_set: Seq<u32>,
)
    requires
        before.wf(),
        after.wf(),
        before.experts() <= 0x1_0000_0000,
        before.balanced(),
        after.counts_step(before, prev_set, next_set),
        in_range(next_set, before.experts()),
    ensures
        after.balanced(),
{
    let n = before.experts();
    lemma_times_below_all(next_set, n);
    assert forall|p: u32| p < n implies #[trigger] row_sum(after.follower_counts(p))
        == after.followers(p) by {
        let (x, y) = (before.follower_counts(p), after.follower_counts(p));
        let k = times(prev_set, p as int);
        assert forall|i: int| 0 <= i < n implies #[trigger] y[i] == x[i] + k * times(
            next_set,
            i,
        ) by {
            assert(after.follows(p, i as u32) == before.follows(p, i as u32) + k * times(
                next_set,
                (i as u32) as int,
            ));
            assert(before.follows(p, i as u32) <= before.followers(p));
            assert(after.follows(p, i as u32) <= after.followers(p));
        }
        lemma_sum_added(x, y, next_set, k, n as int);
        assert(x.take(n as int) =~= x);
        assert(y.take(n as int) =~= y);
        assert(row_sum(x) == before.followers(p));
    }
}

/// What is expected to follow is a distribution: the shares have one
/// denominator, and sum to one.
pub proof fn law_prediction_sums_to_one(m: &MarkovPredictor, pp: Option<u32>, p: u32)
    requires
        m.wf(),
        m.balanced(),
        p < m.experts(),
        m.experts() <= u32::MAX,
        m.summable(pp, p),
    ensures
        forall|i: int|
            0 <= i < m.prediction(pp, p).len() ==> (#[trigger] m.prediction(pp, p)[i]).1.den
                == num_sum(m.prediction(pp, p)),
{
    if m.pair_known(pp, p) {
        let row = m.pair_row(pp->0, p);
        law_shares_sum_to_one(row, row_sum(row) as u64);
    } else if m.followers(p) > 0 {
        assert(row_sum(m.follower_counts(p)) == m.followers(p));
        law_shares_sum_to_one(m.follower_counts(p), m.followers(p) as u64);
    } else {
        let list = uniform(m.experts());
        lemma_ones(list);
    }
}

proof fn lemma_ones(list: Seq<(u32, Probability)>)
    requires
        forall|i: int| 0 <= i < list.len() ==> (#[trigger] list[i]).1.num == 1,
    ensures
        num_sum(list) == list.len(),
    decreases list.len(),
{
    if list.len() > 0 {
        let rest = list.drop_last();
        assert forall|i: int| 0 <= i < rest.len() implies (#[trigger] rest[i]).1.num == 1 by {
            assert(rest[i] == list[i]);
        }
        lemma_ones(rest);
    }
}

/// A prediction names no expert twice, and no later share is higher than an
/// earlier one.
proof fn lemma_prediction_ordered(m: &MarkovPredictor, pp: Option<u32>, p: u32)
    requires
        m.wf(),
        m.experts() <= 0x1_0000_0000,
    ensures
        crate::predictors::pooling::ids_distinct(m.prediction(pp, p)),
        m.prediction(pp, p).len() <= usize::MAX,
        forall|i: int, j: int|
            0 <= i < j < m.prediction(pp, p).len() ==> !(#[trigger] m.prediction(
                pp,
                p,
            )[j]).1.above((#[trigger] m.prediction(pp, p)[i]).1),
{
    let list = m.prediction(pp, p);
    if m.pair_known(pp, p) {
        let row = m.pair_row(pp->0, p);
        lemma_shares_ordered(row, row_sum(row) as u64, m.experts());
    } else if m.followers(p) > 0 {
        lemma_shares_ordered(m.follower_counts(p), m.followers(p) as u64, m.experts());
    }
}

proof fn lemma_shares_ordered(counts: Seq<u64>, total: u64, experts: nat)
    requires
        counts.len() <= 0x1_0000_0000,
        counts.len() <= usize::MAX,
    ensures
        crate::predictors::pooling::ids_distinct(shares(counts, total, experts)),
        forall|i: int, j: int|
            0 <= i < j < counts.len() ==> !(#[trigger] shares(counts, total, experts)[j]).1.above(
                (#[trigger] shares(counts, total, experts)[i]).1,
            ),
{
    law_shares_ranked(counts, total, experts);
    let list = shares(counts, total, experts);
    assert forall|i: int, j: int| 0 <= i < j < list.len() implies !(#[trigger] list[j]).1.above(
        (#[trigger] list[i]).1,
    ) by {
        let (a, b) = (list[i].1.num as int, list[j].1.num as int);
        let d = list[i].1.den as int;
        assert(counts[list[i].0 as int] >= counts[list[j].0 as int]);
        assert(b * d <= a * d) by (nonlinear_arith)
            requires
                b <= a,
                0 <= d,
        ;
    }
}

/// A set of one expert predicts as the expert does; an empty set predicts
/// nothing.
pub proof fn law_set_of_one(m: &MarkovPredictor, pp: Option<u32>, p: u32)
    requires
        m.wf(),
        m.experts() <= 0x1_0000_0000,
        p < m.experts(),
        m.summable(pp, p),
    ensures
        crate::predictors::ranking::ranked_pairs(m.pooled(pp, seq![p])) == m.prediction(pp, p),
        crate::predictors::ranking::ranked_pairs(m.pooled(pp, Seq::<u32>::empty())) == Seq::<
            (u32, Probability),
        >::empty(),
{
    let list = m.prediction(pp, p);
    let none = Seq::<(u32, Probability)>::empty();
    lemma_prediction_ordered(m, pp, p);
    lemma_prediction_usable(m, pp, p);
    assert(seq![p].drop_last() =~= Seq::<u32>::empty());
    reveal_with_fuel(MarkovPredictor::pooled, 2);
    assert(m.pooled(pp, seq![p]) == crate::predictors::pooling::absorbed_all(none, list));
    assert(none + list =~= list);
    crate::predictors::pooling::law_fresh_put_behind(none, list);
    let keys = crate::predictors::ranking::scores_of(list);
    assert forall|i: int| 0 <= i < keys.len() implies (#[trigger] keys[i]).valid() by {
        assert(list[i].1.valid());
    }
    crate::predictors::ranking::law_ranked_stays(list);
    assert(crate::predictors::ranking::ranked_pairs(none) =~= none);
}

/// Naming an expert of the set again changes nothing.
pub proof fn law_repeated_member(
    m: &MarkovPredictor,
    pp: Option<u32>,
    set: Seq<u32>,
    p: u32,
    others: Seq<u32>,
)
    requires
        m.wf(),
        in_range(set, m.experts()),
        forall|i: int| 0 <= i < set.len() ==> m.summable(pp, #[trigger] set[i]),
        set.contains(p),
    ensures
        m.pooled(pp, set.push(p) + others) == m.pooled(pp, set + others),
    decreases others.len(),
{
    if others.len() == 0 {
        assert(set.push(p) + others =~= set.push(p));
        assert(set + others =~= set);
        assert(set.push(p).drop_last() =~= set);
        law_set_prediction(m, pp, set);
        let k = choose|k: int| 0 <= k < set.len() && set[k] == p;
        let all = m.pooled(pp, set);
        let found = m.prediction(pp, p);
        assert forall|j: int| 0 <= j < found.len() implies crate::predictors::pooling::covers(
            all,
            (#[trigger] found[j]).0,
            found[j].1,
        ) by {
            assert(found[j] == m.prediction(pp, set[k])[j]);
        }
        crate::predictors::pooling::law_covered_changes_nothing(all, found);
    } else {
        let fewer = others.drop_last();
        law_repeated_member(m, pp, set, p, fewer);
        assert((set.push(p) + others).drop_last() =~= set.push(p) + fewer);
        assert((set + others).drop_last() =~= set + fewer);
    }
}

/// A prediction for a set that is not empty has an entry for every expert, and
/// for nothing else.
pub proof fn law_set_lists_experts(m: &MarkovPredictor, pp: Option<u32>, set: Seq<u32>, x: u32)
    requires
        m.wf(),
        m.experts() <= u32::MAX,
        in_range(set, m.experts()),
        forall|i: int| 0 <= i < set.len() ==> m.summable(pp, #[trigger] set[i]),
        set.len() > 0,
    ensures
        lists(m.pooled(pp, set), x) <==> x < m.experts(),
{
    law_set_prediction(m, pp, set);
    let all = m.pooled(pp, set);
    if x < m.experts() {
        let first = m.prediction(pp, set[0]);
        lemma_prediction_lists(m, pp, set[0], x);
        let j = choose|j: int| 0 <= j < first.len() && #[trigger] first[j].0 == x;
        assert(crate::predictors::pooling::covers(
            all,
            m.prediction(pp, set[0])[j].0,
            m.prediction(pp, set[0])[j].1,
        ));
        let i = choose|i: int|
            0 <= i < all.len() && (#[trigger] all[i]).0 == x && !first[j].1.above(all[i].1);
        assert(all[i].0 == x);
    }
    if lists(all, x) {
        let i = choose|i: int| 0 <= i < all.len() && #[trigger] all[i].0 == x;
        let k = choose|k: int|
            0 <= k < set.len() && (#[trigger] m.prediction(pp, set[k])).contains(all[i]);
        let list = m.prediction(pp, set[k]);
        let j = choose|j: int| 0 <= j < list.len() && list[j] == all[i];
        assert(list[j].0 == x);
        lemma_prediction_lists(m, pp, set[k], x);
    }
}

proof fn lemma_prediction_lists(m: &MarkovPredictor, pp: Option<u32>, p: u32, x: u32)
    requires
        m.wf(),
        m.experts() <= u32::MAX,
    ensures
        lists(m.prediction(pp, p), x) <==> x < m.experts(),
{
    let list = m.prediction(pp, p);
    if m.pair_known(pp, p) {
        let row = m.pair_row(pp->0, p);
        law_shares_ranked(row, row_sum(row) as u64, m.experts());
    } else if m.followers(p) > 0 {
        law_shares_ranked(m.follower_counts(p), m.followers(p) as u64, m.experts());
    } else if x < m.experts() {
        assert(list[x as int].0 == x);
    }
}

/// Pairs are kept apart: the number of a pair gives back both experts.
pub proof fn law_pair_number(pp: u32, p: u32)
    ensures
        pair_number(pp, p) as int / 0x1_0000_0000 == pp,
        pair_number(pp, p) as int % 0x1_0000_0000 == p,
{
}

/// The counts of two rows together sum to the sums of both.
pub proof fn law_row_sum(a: Seq<u64>, b: Seq<u64>, n: u64)
    ensures
        row_sum(Seq::<u64>::empty()) == 0,
        row_sum(seq![n]) == n,
        row_sum(a + b) == row_sum(a) + row_sum(b),
    decreases b.len(),
{
    reveal_with_fuel(row_sum, 2);
    assert(seq![n].drop_last() =~= Seq::<u64>::empty());
    if b.len() == 0 {
        assert(a + b =~= a);
    } else {
        law_row_sum(a, b.drop_last(), n);
        assert((a + b).drop_last() =~= a + b.drop_last());
        assert((a + b).last() == b.last());
    }
}

/// A step counts every pair of an expert it comes from and one it leads to, as
/// often as both are named: `x` after `p`, and `x` after the pair of an expert
/// of the step before and `p`. It counts nothing else, and is the latest one
/// then.
pub proof fn law_step_counted(
    before: &MarkovPredictor,
    after: &MarkovPredictor,
    prev_set: Seq<u32>,
    next_set: Seq<u32>,
    pp: u32,
    p: u32,
    x: u32,
)
    requires
        after.counts_step(before, prev_set, next_set),
    ensures
        ({
            let a = before.before_latest().to_multiset().count(pp);
            let b = prev_set.to_multiset().count(p);
            let c = next_set.to_multiset().count(x);
            &&& p < before.experts() ==> after.follows(p, x) == before.follows(p, x) + b * c
            &&& p < before.experts() ==> after.followers(p) == before.followers(p) + b
                * next_set.len()
            &&& x < before.experts() ==> after.pair_follows(pp, p, x as int) == before.pair_follows(
                pp,
                p,
                x as int,
            ) + a * b * c
            &&& after.pair_seen(pp, p) <==> before.pair_seen(pp, p) || a > 0 && b > 0
        }),
        after.experts() == before.experts(),
        after.before_latest() == prev_set,
        after.latest() == next_set,
{
    let none = Seq::<u32>::empty();
    crate::predictors::counting::law_occurrences(before.before_latest(), none, pp);
    crate::predictors::counting::law_occurrences(prev_set, none, p);
    crate::predictors::counting::law_occurrences(next_set, none, x);
    assert(p < before.experts() ==> after.follows(p, x) == before.follows(p, x) + times(
        prev_set,
        p as int,
    ) * times(next_set, x as int));
    assert(p < before.experts() ==> after.followers(p) == before.followers(p) + times(
        prev_set,
        p as int,
    ) * next_set.len());
    assert(x < before.experts() ==> after.pair_follows(pp, p, x as int) == before.pair_follows(
        pp,
        p,
        x as int,
    ) + times(before.before_latest(), pp as int) * times(prev_set, p as int) * times(
        next_set,
        x as int,
    ));
    assert(after.pair_seen(pp, p) == (before.pair_seen(pp, p) || (times(
        before.before_latest(),
        pp as int,
    ) > 0 && times(prev_set, p as int) > 0)));
}

/// A pair that was not seen has no counts; one that was seen has those of its
/// row.
pub proof fn law_pair_counts(m: &MarkovPredictor, pp: u32, p: u32, x: int)
    ensures
        !m.pair_seen(pp, p) ==> m.pair_follows(pp, p, x) == 0,
        m.pair_seen(pp, p) ==> m.pair_follows(pp, p, x) == m.pair_row(pp, p)[x],
{
}

/// A step can be observed exactly where it names experts only and no counter
/// that it adds to overflows.
pub proof fn law_observable(m: &MarkovPredictor, prev_set: Seq<u32>, next_set: Seq<u32>)
    ensures
        m.observable(prev_set, next_set) <==> {
            &&& forall|i: int| 0 <= i < prev_set.len() ==> (#[trigger] prev_set[i]) < m.experts()
            &&& m.before_latest().len() > 0 && prev_set.len() > 0 ==> forall|i: int|
                0 <= i < next_set.len() ==> (#[trigger] next_set[i]) < m.experts()
            &&& forall|p: u32|
                p < m.experts() ==> #[trigger] m.followers(p)
                    + crate::predictors::counting::occurrences(prev_set, p as int) * next_set.len()
                    <= u64::MAX
            &&& forall|pp: u32, p: u32, x: int|
                0 <= x < m.experts() ==> #[trigger] m.pair_follows(pp, p, x)
                    + crate::predictors::counting::occurrences(m.before_latest(), pp as int)
                    * crate::predictors::counting::occurrences(prev_set, p as int)
                    * crate::predictors::counting::occurrences(next_set, x) <= u64::MAX
        },
{
}

/// Predictions after a pair are refused exactly where the pair was seen and the
/// sum of its counts overflows.
pub proof fn law_summable(m: &MarkovPredictor, pp: Option<u32>, p: u32)
    ensures
        m.summable(pp, p) <==> {
            ||| pp is None
            ||| !m.pair_seen(pp->0, p)
            ||| row_sum(m.pair_row(pp->0, p)) <= u64::MAX
        },
{
}

/// What a prediction goes by: ten observations of the pair or more decide, else
/// what was seen after `p` alone. An expert that was seen `n` times has the
/// share of `n + 1` in all that was seen and one for each expert; a higher
/// count comes before a lower one, and of level counts the lower expert first.
pub proof fn law_prediction(m: &MarkovPredictor, pp: Option<u32>, p: u32, i: int, j: int)
    requires
        m.wf(),
        m.experts() <= u32::MAX,
        p < m.experts(),
        m.summable(pp, p),
    ensures
        ({
            let by_pair = pp is Some && m.pair_seen(pp->0, p) && row_sum(m.pair_row(pp->0, p))
                >= 10;
            let total = if by_pair {
                row_sum(m.pair_row(pp->0, p))
            } else {
                m.followers(p)
            };
            let list = m.prediction(pp, p);
            let (a, b) = (list[i], list[j]);
            let n = if by_pair {
                m.pair_row(pp->0, p)[a.0 as int] as nat
            } else {
                m.follows(p, a.0)
            };
            let o = if by_pair {
                m.pair_row(pp->0, p)[b.0 as int] as nat
            } else {
                m.follows(p, b.0)
            };
            &&& list.len() == m.experts()
            &&& 0 <= i < list.len() ==> {
                &&& a.0 < m.experts()
                &&& a.1.num == n + 1
                &&& a.1.den == total + m.experts()
            }
            &&& 0 <= i < j < list.len() ==> n > o || n == o && a.0 < b.0
        }),
{
    let list = m.prediction(pp, p);
    if m.pair_known(pp, p) {
        let row = m.pair_row(pp->0, p);
        law_shares_ranked(row, row_sum(row) as u64, m.experts());
    } else {
        assert forall|x: u32| x < m.experts() implies #[trigger] m.follower_counts(p)[x as int]
            == m.follows(p, x) by {
            assert(m.follows(p, x) <= m.followers(p));
        }
        if m.followers(p) > 0 {
            law_shares_ranked(m.follower_counts(p), m.followers(p) as u64, m.experts());
            if 0 <= i < list.len() {
                assert(m.follower_counts(p)[list[i].0 as int] == m.follows(p, list[i].0));
            }
            if 0 <= j < list.len() {
                assert(m.follower_counts(p)[list[j].0 as int] == m.follows(p, list[j].0));
            }
        } else {
            if 0 <= i < list.len() {
                assert(m.follows(p, list[i].0) <= m.followers(p));
            }
            if 0 <= j < list.len() {
                assert(m.follows(p, list[j].0) <= m.followers(p));
            }
        }
    }
}

/// A prediction names every expert: `i` is the place of `x`.
pub proof fn law_prediction_names(m: &MarkovPredictor, pp: Option<u32>, p: u32, x: u32) -> (i: int)
    requires
        m.wf(),
        m.experts() <= u32::MAX,
        x < m.experts(),
    ensures
        0 <= i < m.prediction(pp, p).len(),
        m.prediction(pp, p)[i].0 == x,
{
    lemma_prediction_lists(m, pp, p, x);
    choose|i: int| 0 <= i < m.prediction(pp, p).len() && #[trigger] m.prediction(pp, p)[i].0 == x
}

/// The predictions for a set are pooled one expert after the other.
pub proof fn law_pooled_in_turn(m: &MarkovPredictor, pp: Option<u32>, set: Seq<u32>, p: u32)
    ensures
        m.pooled(pp, Seq::<u32>::empty()).len() == 0,
        m.pooled(pp, set.push(p)) == crate::predictors::pooling::absorbed_all(
            m.pooled(pp, set),
            m.prediction(pp, p),
        ),
{
    assert(set.push(p).drop_last() =~= set);
}

/// Whatever is expected after one expert of a set is expected after the set with
/// a probability no lower: `i` is the place of that expert among the pooled.
pub proof fn law_pooled_no_lower(
    m: &MarkovPredictor,
    pp: Option<u32>,
    set: Seq<u32>,
    k: int,
    j: int,
) -> (i: int)
    requires
        m.wf(),
        forall|n: int| 0 <= n < set.len() ==> (#[trigger] set[n]) < m.experts(),
        forall|n: int| 0 <= n < set.len() ==> m.summable(pp, #[trigger] set[n]),
        0 <= k < set.len(),
        0 <= j < m.prediction(pp, set[k]).len(),
    ensures
        ({
            let (a, b) = (m.prediction(pp, set[k])[j], m.pooled(pp, set)[i]);
            &&& 0 <= i < m.pooled(pp, set).len()
            &&& b.0 == a.0
            &&& a.1.num * b.1.den <= b.1.num * a.1.den
        }),
{
    law_set_prediction(m, pp, set);
    let a = m.prediction(pp, set[k])[j];
    let all = m.pooled(pp, set);
    assert(crate::predictors::pooling::covers(all, a.0, a.1));
    choose|i: int| 0 <= i < all.len() && (#[trigger] all[i]).0 == a.0 && !a.1.above(all[i].1)
}

/// Whatever is expected after a set is expected, with that probability, after
/// one of its experts: after the one at `found.0`, at the place `found.1`. No
/// expert is named twice.
pub proof fn law_pooled_from_member(
    m: &MarkovPredictor,
    pp: Option<u32>,
    set: Seq<u32>,
    i: int,
    j: int,
) -> (found: (int, int))
    requires
        m.wf(),
        forall|n: int| 0 <= n < set.len() ==> (#[trigger] set[n]) < m.experts(),
        forall|n: int| 0 <= n < set.len() ==> m.summable(pp, #[trigger] set[n]),
        0 <= i < m.pooled(pp, set).len(),
    ensures
        0 <= found.0 < set.len(),
        0 <= found.1 < m.prediction(pp, set[found.0]).len(),
        m.prediction(pp, set[found.0])[found.1] == m.pooled(pp, set)[i],
        i < j < m.pooled(pp, set).len() ==> m.pooled(pp, set)[i].0 != m.pooled(pp, set)[j].0,
{
    law_set_prediction(m, pp, set);
    let all = m.pooled(pp, set);
    let k = choose|k: int|
        0 <= k < set.len() && (#[trigger] m.prediction(pp, set[k])).contains(all[i]);
    let list = m.prediction(pp, set[k]);
    let n = choose|n: int| 0 <= n < list.len() && list[n] == all[i];
    if i < j < all.len() {
        assert(all[i].0 != all[j].0);
    }
    (k, n)
}

/// The expert that stands for a set in pairs is its last one.
pub proof fn law_last_of(set: Seq<u32>, p: u32)
    ensures
        MarkovPredictor::last_of(set.push(p)) == Some(p),
        MarkovPredictor::last_of(Seq::<u32>::empty()) is None,
{
}

/// A model is balanced exactly where the counts of what follows each expert sum
/// to the number of its followers.
pub proof fn law_balanced(m: &MarkovPredictor, p: u32, x: u32)
    requires
        m.wf(),
        p < m.experts(),
    ensures
        m.balanced() ==> row_sum(m.follower_counts(p)) == m.followers(p),
        m.follower_counts(p).len() == m.experts(),
        x < m.experts() ==> m.follower_counts(p)[x as int] == m.follows(p, x),
        m.follows(p, x) <= m.followers(p),
{
    assert(m.follows(p, x) <= m.followers(p));
}

} // verus!
