//! Predictive prefetch: Markov transition model and locality monitor.
//!
//! After every forward pass the routing decision is fed to both predictors,
//! which name the experts to prefetch. A predictor's vote for an expert is an
//! arm; the votes of both arms are gathered by expert, and the experts are
//! ranked by score.

pub mod counting;
pub mod locality;
pub mod markov;
pub mod pooling;
pub mod probability;
pub mod ranking;

use crate::predictors::locality::LocalityMonitor;
use crate::predictors::markov::MarkovPredictor;
use crate::predictors::probability::Probability;
use crate::predictors::ranking::rank_pairs;
use vstd::prelude::*;

verus! {

/// The votes for one expert: its places in the Markov arm with the probability
/// there, and its places in the locality arm.
pub struct ArmVotes {
    pub id: u32,
    pub markov: Vec<(usize, Probability)>,
    pub locality: Vec<usize>,
}

/// The places of `id` in the Markov arm, with the probabilities there.
pub open spec fn markov_votes(markov: Seq<(u32, Probability)>, id: u32) -> Seq<(usize, Probability)>
    decreases markov.len(),
{
    if markov.len() == 0 {
        Seq::empty()
    } else {
        let rest = markov_votes(markov.drop_last(), id);
        if markov.last().0 == id {
            rest.push(((markov.len() - 1) as usize, markov.last().1))
        } else {
            rest
        }
    }
}

/// The places of `id` in the locality arm.
pub open spec fn locality_votes(locality: Seq<u32>, id: u32) -> Seq<usize>
    decreases locality.len(),
{
    if locality.len() == 0 {
        Seq::empty()
    } else {
        let rest = locality_votes(locality.drop_last(), id);
        if locality.last() == id {
            rest.push((locality.len() - 1) as usize)
        } else {
            rest
        }
    }
}

/// Some arm has `id`.
pub open spec fn voted(markov: Seq<(u32, Probability)>, locality: Seq<u32>, id: u32) -> bool {
    ||| exists|i: int| 0 <= i < markov.len() && (#[trigger] markov[i]).0 == id
    ||| locality.contains(id)
}

/// The entries are in strictly ascending order of their ids.
pub open spec fn by_id(votes: Seq<ArmVotes>) -> bool {
    forall|i: int, j: int|
        0 <= i < j < votes.len() ==> (#[trigger] votes[i]).id < (#[trigger] votes[j]).id
}

/// Some entry is that of `id`.
pub open spec fn has_entry(votes: Seq<ArmVotes>, id: u32) -> bool {
    exists|i: int| 0 <= i < votes.len() && (#[trigger] votes[i]).id == id
}

/// The votes of both arms, gathered by expert: one entry for each expert that
/// has a vote, in ascending order.
pub open spec fn gathered(
    votes: Seq<ArmVotes>,
    markov: Seq<(u32, Probability)>,
    locality: Seq<u32>,
) -> bool {
    &&& by_id(votes)
    &&& forall|id: u32| #[trigger] has_entry(votes, id) == voted(markov, locality, id)
    &&& forall|i: int|
        0 <= i < votes.len() ==> {
            let v = #[trigger] votes[i];
            v.markov@ == markov_votes(markov, v.id) && v.locality@ == locality_votes(
                locality,
                v.id,
            )
        }
}

/// Strictly ascending.
pub open spec fn climbs(ids: Seq<u32>) -> bool {
    forall|i: int, j: int| 0 <= i < j < ids.len() ==> ids[i] < ids[j]
}

/// Adds an id in its place, unless it is there.
fn add_id(ids: &mut Vec<u32>, id: u32)
    requires
        climbs(old(ids)@),
    ensures
        climbs(final(ids)@),
        forall|x: u32| #[trigger] final(ids)@.contains(x) <==> old(ids)@.contains(x) || x == id,
{
    let mut pos: usize = ids.len();
    while pos > 0 && ids[pos - 1] > id
        invariant
            pos <= ids@.len(),
            ids@ == old(ids)@,
            forall|i: int| pos <= i < ids@.len() ==> ids@[i] > id,
        decreases pos,
    {
        pos = pos - 1;
    }
    if pos > 0 && ids[pos - 1] == id {
        assert(ids@[pos - 1] == id);
        return ;
    }
    let ghost before = ids@;
    ids.insert(pos, id);
    assert forall|x: u32| #[trigger] ids@.contains(x) <==> before.contains(x) || x == id by {
        if before.contains(x) {
            let i = choose|i: int| 0 <= i < before.len() && before[i] == x;
            if i < pos {
                assert(ids@[i] == x);
            } else {
                assert(ids@[i + 1] == x);
            }
        }
        if x == id {
            assert(ids@[pos as int] == x);
        }
        if ids@.contains(x) && x != id {
            let i = choose|i: int| 0 <= i < ids@.len() && ids@[i] == x;
            if i < pos {
                assert(before[i] == x);
            } else {
                assert(before[i - 1] == x);
            }
        }
    }
}

/// The places of `id` in the Markov arm.
fn markov_places(markov: &[(u32, Probability)], id: u32) -> (places: Vec<(usize, Probability)>)
    ensures
        places@ == markov_votes(markov@, id),
{
    let mut places: Vec<(usize, Probability)> = Vec::new();
    let mut rank: usize = 0;
    while rank < markov.len()
        invariant
            rank <= markov@.len(),
            places@ == markov_votes(markov@.take(rank as int), id),
        decreases markov.len() - rank,
    {
        assert(markov@.take(rank + 1).drop_last() =~= markov@.take(rank as int));
        if markov[rank].0 == id {
            places.push((rank, markov[rank].1));
        }
        rank = rank + 1;
    }
    assert(markov@.take(rank as int) =~= markov@);
    places
}

/// The places of `id` in the locality arm.
fn locality_places(locality: &[u32], id: u32) -> (places: Vec<usize>)
    ensures
        places@ == locality_votes(locality@, id),
{
    let mut places: Vec<usize> = Vec::new();
    let mut rank: usize = 0;
    while rank < locality.len()
        invariant
            rank <= locality@.len(),
            places@ == locality_votes(locality@.take(rank as int), id),
        decreases locality.len() - rank,
    {
        assert(locality@.take(rank + 1).drop_last() =~= locality@.take(rank as int));
        if locality[rank] == id {
            places.push(rank);
        }
        rank = rank + 1;
    }
    assert(locality@.take(rank as int) =~= locality@);
    places
}

/// The experts that have a vote, in ascending order.
fn voted_ids(markov: &[(u32, Probability)], locality: &[u32]) -> (ids: Vec<u32>)
    ensures
        climbs(ids@),
        forall|x: u32| #[trigger] ids@.contains(x) <==> voted(markov@, locality@, x),
{
    let mut ids: Vec<u32> = Vec::new();
    let mut i: usize = 0;
    while i < markov.len()
        invariant
            i <= markov@.len(),
            climbs(ids@),
            forall|x: u32| #[trigger]
                ids@.contains(x) <==> exists|k: int| 0 <= k < i && (#[trigger] markov@[k]).0 == x,
        decreases markov.len() - i,
    {
        let ghost before = ids@;
        add_id(&mut ids, markov[i].0);
        assert forall|x: u32| #[trigger] ids@.contains(x) <==> exists|k: int|
            0 <= k < i + 1 && (#[trigger] markov@[k]).0 == x by {
            if before.contains(x) {
                let k = choose|k: int| 0 <= k < i && (#[trigger] markov@[k]).0 == x;
                assert(markov@[k].0 == x);
            }
            if x == markov@[i as int].0 {
                assert(markov@[i as int].0 == x);
            }
        }
        i = i + 1;
    }
    let mut j: usize = 0;
    while j < locality.len()
        invariant
            j <= locality@.len(),
            climbs(ids@),
            forall|x: u32| #[trigger]
                ids@.contains(x) <==> (exists|k: int|
                    0 <= k < markov@.len() && (#[trigger] markov@[k]).0 == x) || (exists|k: int|
                    0 <= k < j && #[trigger] locality@[k] == x),
        decreases locality.len() - j,
    {
        let ghost before = ids@;
        add_id(&mut ids, locality[j]);
        assert forall|x: u32| #[trigger] ids@.contains(x) <==> (exists|k: int|
            0 <= k < markov@.len() && (#[trigger] markov@[k]).0 == x) || (exists|k: int|
            0 <= k < j + 1 && #[trigger] locality@[k] == x) by {
            if exists|k: int| 0 <= k < j && #[trigger] locality@[k] == x {
                assert(before.contains(x));
            }
            if x == locality@[j as int] {
                assert(locality@[j as int] == x);
            }
        }
        j = j + 1;
    }
    ids
}

pub struct PredictiveLoader {
    markov: MarkovPredictor,
    fanout: usize,
}

impl PredictiveLoader {
    /// The transition model.
    pub closed spec fn model(&self) -> MarkovPredictor {
        self.markov
    }

    /// How many experts are prefetched at most.
    pub closed spec fn limit(&self) -> nat {
        self.fanout as nat
    }

    pub open spec fn wf(&self) -> bool {
        self.model().wf()
    }

    pub fn new(num_experts: usize, fanout: usize) -> (l: Self)
        ensures
            l.wf(),
            l.limit() == fanout,
            l.model().experts() == num_experts,
            forall|p: u32, x: u32| p < num_experts ==> #[trigger] l.model().follows(p, x) == 0,
            forall|p: u32| p < num_experts ==> #[trigger] l.model().followers(p) == 0,
            forall|pp: u32, p: u32| !#[trigger] l.model().pair_seen(pp, p),
            l.model().balanced(),
            l.model().before_latest() == Seq::<u32>::empty(),
            l.model().latest() == Seq::<u32>::empty(),
    {
        PredictiveLoader { markov: MarkovPredictor::new(num_experts), fanout }
    }

    /// Gathers the votes of both arms by expert.
    pub fn combine_unified_arms(
        &self,
        markov: &[(u32, Probability)],
        locality: &[u32],
    ) -> (votes: Vec<ArmVotes>)
        ensures
            gathered(votes@, markov@, locality@),
    {
        let ids = voted_ids(markov, locality);
        let mut votes: Vec<ArmVotes> = Vec::new();
        let mut i: usize = 0;
        while i < ids.len()
            invariant
                i <= ids@.len(),
                climbs(ids@),
                votes@.len() == i,
                forall|k: int|
                    0 <= k < i ==> {
                        let v = #[trigger] votes@[k];
                        v.id == ids@[k] && v.markov@ == markov_votes(markov@, v.id) && v.locality@
                            == locality_votes(locality@, v.id)
                    },
            decreases ids.len() - i,
        {
            let id = ids[i];
            votes.push(
                ArmVotes {
                    id,
                    markov: markov_places(markov, id),
                    locality: locality_places(locality, id),
                },
            );
            i = i + 1;
        }
        assert forall|id: u32| #[trigger] has_entry(votes@, id) == voted(markov@, locality@, id) by {
            if has_entry(votes@, id) {
                let k = choose|k: int| 0 <= k < votes@.len() && (#[trigger] votes@[k]).id == id;
                assert(ids@[k] == id);
                assert(ids@.contains(id));
            }
            if voted(markov@, locality@, id) {
                assert(ids@.contains(id));
                let k = choose|k: int| 0 <= k < ids@.len() && ids@[k] == id;
                assert(votes@[k].id == id);
            }
        }
        votes
    }

    /// Whether the step can be observed and followed by a prediction.
    pub fn can_observe(&self, prev_set: &[u32], next_set: &[u32]) -> (b: bool)
        requires
            self.wf(),
        ensures
            b == (self.model().observable(prev_set@, next_set@)
                && crate::predictors::markov::in_range(next_set@, self.model().experts())),
    {
        self.markov.knows(next_set) && self.markov.can_observe(prev_set, next_set)
    }

    /// Observes a step and gathers the votes for what comes next: those of the
    /// model after `next_set`, and those of the experts that the monitor finds
    /// at least `min_count` times.
    pub fn observe_and_predict(
        &mut self,
        prev_set: &[u32],
        next_set: &[u32],
        locality: Option<&LocalityMonitor>,
        min_count: usize,
    ) -> (votes: Vec<ArmVotes>)
        requires
            old(self).wf(),
            old(self).model().observable(prev_set@, next_set@),
            crate::predictors::markov::in_range(next_set@, old(self).model().experts()),
            locality matches Some(m) ==> m.wf(),
        ensures
            final(self).wf(),
            final(self).limit() == old(self).limit(),
            final(self).model().counts_step(&old(self).model(), prev_set@, next_set@),
            gathered(
                votes@,
                crate::predictors::ranking::ranked_pairs(
                    final(self).model().pooled(None, next_set@),
                ),
                match locality {
                    Some(m) => m.hot(min_count as nat),
                    None => Seq::empty(),
                },
            ),
    {
        self.markov.observe_step(prev_set, next_set);
        let hot: Vec<u32> = match locality {
            Some(m) => m.hot_set(min_count),
            None => Vec::new(),
        };
        let none: Vec<u32> = Vec::new();
        let preds = self.markov.predict_for_set(none.as_slice(), next_set);
        self.combine_unified_arms(preds.as_slice(), hot.as_slice())
    }

    /// Of scored experts, those to prefetch: the highest scores, as many as
    /// the loader fetches.
    pub fn select(&self, scored: &Vec<(u32, i64)>) -> (ids: Vec<u32>)
        ensures
            ids@.len() == if scored@.len() < self.limit() {
                scored@.len()
            } else {
                self.limit()
            },
            forall|i: int|
                0 <= i < ids@.len() ==> #[trigger] ids@[i]
                    == crate::predictors::ranking::ranked_pairs(scored@)[i].0,
    {
        let ranked = rank_pairs(scored);
        let mut ids: Vec<u32> = Vec::new();
        while ids.len() < ranked.len() && ids.len() < self.fanout
            invariant
                ids@.len() <= ranked@.len(),
                ids@.len() <= self.fanout,
                forall|i: int| 0 <= i < ids@.len() ==> #[trigger] ids@[i] == ranked@[i].0,
            decreases ranked.len() - ids.len(),
        {
            let next = ranked[ids.len()].0;
            ids.push(next);
        }
        ids
    }
}

/// Every vote of the Markov arm is counted once: under its own expert, and
/// under no other.
pub proof fn law_markov_vote_counted(markov: Seq<(u32, Probability)>, rank: int, id: u32)
    requires
        0 <= rank < markov.len() <= usize::MAX,
    ensures
        exists|i: int|
            0 <= i < markov_votes(markov, markov[rank].0).len() && (#[trigger] markov_votes(
                markov,
                markov[rank].0,
            )[i]) == (rank as usize, markov[rank].1),
        id != markov[rank].0 ==> forall|i: int|
            0 <= i < markov_votes(markov, id).len() ==> (#[trigger] markov_votes(markov, id)[i]).0
                != rank,
    decreases markov.len(),
{
    let own = markov[rank].0;
    let rest = markov.drop_last();
    let all = markov_votes(markov, own);
    let before = markov_votes(rest, own);
    if rank == rest.len() {
        assert(all[before.len() as int] == (rank as usize, markov[rank].1));
        lemma_markov_places(rest, id);
    } else {
        law_markov_vote_counted(rest, rank, id);
        assert(rest[rank] == markov[rank]);
        let i = choose|i: int|
            0 <= i < before.len() && #[trigger] before[i] == (rank as usize, rest[rank].1);
        assert(all[i] == before[i]);
    }
    if id != own {
        let others = markov_votes(markov, id);
        let rest_others = markov_votes(rest, id);
        assert forall|i: int| 0 <= i < others.len() implies (#[trigger] others[i]).0 != rank by {
            if i < rest_others.len() {
                assert(others[i] == rest_others[i]);
            }
        }
    }
}

/// Votes stand at places of the arm.
proof fn lemma_markov_places(markov: Seq<(u32, Probability)>, id: u32)
    requires
        markov.len() <= usize::MAX,
    ensures
        forall|i: int|
            0 <= i < markov_votes(markov, id).len() ==> (#[trigger] markov_votes(markov, id)[i]).0
                < markov.len(),
    decreases markov.len(),
{
    if markov.len() > 0 {
        let rest = markov.drop_last();
        lemma_markov_places(rest, id);
        let all = markov_votes(markov, id);
        let before = markov_votes(rest, id);
        assert forall|i: int| 0 <= i < all.len() implies (#[trigger] all[i]).0 < markov.len() by {
            if i < before.len() {
                assert(all[i] == before[i]);
            }
        }
    }
}

/// No expert has two entries.
pub proof fn law_one_entry(
    votes: Seq<ArmVotes>,
    markov: Seq<(u32, Probability)>,
    locality: Seq<u32>,
    i: int,
    j: int,
)
    requires
        gathered(votes, markov, locality),
        0 <= i < votes.len(),
        0 <= j < votes.len(),
        votes[i].id == votes[j].id,
    ensures
        i == j,
{
}

/// An expert's votes in the locality arm are exactly the places at which it
/// stands there, in ascending order: each place is counted once, under its own
/// expert, and no place is outside the arm.
pub proof fn law_locality_vote_counted(locality: Seq<u32>, rank: int, id: u32, i: int, j: int)
    requires
        0 <= rank < locality.len() <= usize::MAX,
    ensures
        locality_votes(locality, locality[rank]).contains(rank as usize),
        id != locality[rank] ==> !locality_votes(locality, id).contains(rank as usize),
        0 <= i < locality_votes(locality, id).len() ==> {
            let place = locality_votes(locality, id)[i] as int;
            place < locality.len() && locality[place] == id
        },
        0 <= i < j < locality_votes(locality, id).len() ==> locality_votes(locality, id)[i]
            < locality_votes(locality, id)[j],
{
    lemma_locality_places(locality, locality[rank]);
    lemma_locality_places(locality, id);
    if locality_votes(locality, id).contains(rank as usize) {
        let n = choose|n: int|
            0 <= n < locality_votes(locality, id).len() && locality_votes(locality, id)[n]
                == rank as usize;
        assert(locality[locality_votes(locality, id)[n] as int] == id);
    }
}

proof fn lemma_locality_places(locality: Seq<u32>, id: u32)
    requires
        locality.len() <= usize::MAX,
    ensures
        ({
            let votes = locality_votes(locality, id);
            &&& forall|i: int|
                0 <= i < votes.len() ==> (#[trigger] votes[i]) < locality.len()
                    && locality[votes[i] as int] == id
            &&& forall|i: int, j: int|
                0 <= i < j < votes.len() ==> (#[trigger] votes[i]) < (#[trigger] votes[j])
            &&& forall|r: int|
                0 <= r < locality.len() && #[trigger] locality[r] == id ==> votes.contains(
                    r as usize,
                )
        }),
    decreases locality.len(),
{
    if locality.len() > 0 {
        let rest = locality.drop_last();
        let n = rest.len() as int;
        lemma_locality_places(rest, id);
        let before = locality_votes(rest, id);
        let votes = locality_votes(locality, id);
        assert forall|i: int| 0 <= i < votes.len() implies (#[trigger] votes[i]) < locality.len()
            && locality[votes[i] as int] == id by {
            if i < before.len() {
                assert(votes[i] == before[i]);
                assert(rest[before[i] as int] == id);
            }
        }
        assert forall|i: int, j: int| 0 <= i < j < votes.len() implies (#[trigger] votes[i]) < (
        #[trigger] votes[j]) by {
            assert(votes[i] == before[i]);
            if j < before.len() {
                assert(votes[j] == before[j]);
            }
        }
        assert forall|r: int| 0 <= r < locality.len() && #[trigger] locality[r]
            == id implies votes.contains(r as usize) by {
            if r < n {
                assert(rest[r] == id);
                assert(before.contains(r as usize));
                let k = choose|k: int| 0 <= k < before.len() && before[k] == r as usize;
                assert(votes[k] == r as usize);
            } else {
                assert(votes[before.len() as int] == r as usize);
            }
        }
    }
}

/// An expert's votes in the Markov arm stand at the places at which it stands
/// there, in ascending order and each with the probability of its place.
pub proof fn law_markov_votes(markov: Seq<(u32, Probability)>, rank: int, id: u32, i: int, j: int)
    requires
        0 <= rank < markov.len() <= usize::MAX,
    ensures
        markov_votes(markov, markov[rank].0).contains((rank as usize, markov[rank].1)),
        0 <= i < markov_votes(markov, id).len() ==> {
            let (place, p) = markov_votes(markov, id)[i];
            place < markov.len() && markov[place as int] == (id, p)
        },
        0 <= i < j < markov_votes(markov, id).len() ==> markov_votes(markov, id)[i].0
            < markov_votes(markov, id)[j].0,
{
    law_markov_vote_counted(markov, rank, id);
    let own = markov_votes(markov, markov[rank].0);
    let n = choose|n: int| 0 <= n < own.len() && #[trigger] own[n] == (rank as usize, markov[rank].1);
    assert(own[n] == (rank as usize, markov[rank].1));
    lemma_markov_order(markov, id);
}

proof fn lemma_markov_order(markov: Seq<(u32, Probability)>, id: u32)
    requires
        markov.len() <= usize::MAX,
    ensures
        ({
            let votes = markov_votes(markov, id);
            &&& forall|i: int|
                0 <= i < votes.len() ==> (#[trigger] votes[i]).0 < markov.len()
                    && markov[votes[i].0 as int] == (id, votes[i].1)
            &&& forall|i: int, j: int|
                0 <= i < j < votes.len() ==> (#[trigger] votes[i]).0 < (#[trigger] votes[j]).0
        }),
    decreases markov.len(),
{
    if markov.len() > 0 {
        let rest = markov.drop_last();
        lemma_markov_order(rest, id);
        let before = markov_votes(rest, id);
        let votes = markov_votes(markov, id);
        assert forall|i: int| 0 <= i < votes.len() implies (#[trigger] votes[i]).0 < markov.len()
            && markov[votes[i].0 as int] == (id, votes[i].1) by {
            if i < before.len() {
                assert(votes[i] == before[i]);
                assert(rest[before[i].0 as int] == (id, before[i].1));
            }
        }
        assert forall|i: int, j: int| 0 <= i < j < votes.len() implies (#[trigger] votes[i]).0 < (
        #[trigger] votes[j]).0 by {
            assert(votes[i] == before[i]);
            if j < before.len() {
                assert(votes[j] == before[j]);
            }
        }
    }
}

/// Every vote of either arm is gathered: the `k`-th entry is that of the expert
/// at the given place of the locality arm, and counts that place.
pub proof fn law_locality_gathered(
    votes: Seq<ArmVotes>,
    markov: Seq<(u32, Probability)>,
    locality: Seq<u32>,
    rank: int,
) -> (k: int)
    requires
        gathered(votes, markov, locality),
        0 <= rank < locality.len() <= usize::MAX,
    ensures
        0 <= k < votes.len(),
        votes[k].id == locality[rank],
        votes[k].locality@.contains(rank as usize),
{
    let id = locality[rank];
    assert(locality.contains(id));
    assert(has_entry(votes, id) == voted(markov, locality, id));
    let k = choose|k: int| 0 <= k < votes.len() && (#[trigger] votes[k]).id == id;
    law_locality_vote_counted(locality, rank, id, 0, 0);
    k
}

/// Every vote of either arm is gathered: the `k`-th entry is that of the expert
/// at the given place of the Markov arm, and counts that place with its
/// probability.
pub proof fn law_markov_gathered(
    votes: Seq<ArmVotes>,
    markov: Seq<(u32, Probability)>,
    locality: Seq<u32>,
    rank: int,
) -> (k: int)
    requires
        gathered(votes, markov, locality),
        0 <= rank < markov.len() <= usize::MAX,
    ensures
        0 <= k < votes.len(),
        votes[k].id == markov[rank].0,
        votes[k].markov@.contains((rank as usize, markov[rank].1)),
{
    let id = markov[rank].0;
    assert(voted(markov, locality, id));
    assert(has_entry(votes, id));
    let k = choose|k: int| 0 <= k < votes.len() && (#[trigger] votes[k]).id == id;
    law_markov_votes(markov, rank, id, 0, 0);
    k
}

/// Nothing but votes is gathered: the entries climb by their experts, each has
/// a vote, and each of its votes is that of a place at which its expert stands.
pub proof fn law_only_votes_gathered(
    votes: Seq<ArmVotes>,
    markov: Seq<(u32, Probability)>,
    locality: Seq<u32>,
    k: int,
    i: int,
)
    requires
        gathered(votes, markov, locality),
        0 <= k < votes.len(),
        markov.len() <= usize::MAX,
        locality.len() <= usize::MAX,
    ensures
        k > 0 ==> votes[k - 1].id < votes[k].id,
        votes[k].markov@.len() > 0 || votes[k].locality@.len() > 0,
        0 <= i < votes[k].markov@.len() ==> votes[k].markov@[i].0 < markov.len()
            && markov[votes[k].markov@[i].0 as int] == (votes[k].id, votes[k].markov@[i].1),
        0 < i < votes[k].markov@.len() ==> votes[k].markov@[i - 1].0 < votes[k].markov@[i].0,
        0 <= i < votes[k].locality@.len() ==> votes[k].locality@[i] < locality.len()
            && locality[votes[k].locality@[i] as int] == votes[k].id,
        0 < i < votes[k].locality@.len() ==> votes[k].locality@[i - 1] < votes[k].locality@[i],
{
    let id = votes[k].id;
    lemma_markov_order(markov, id);
    lemma_locality_places(locality, id);
    assert(has_entry(votes, id) == voted(markov, locality, id));
    if locality.contains(id) {
        let r = choose|r: int| 0 <= r < locality.len() && locality[r] == id;
        law_locality_vote_counted(locality, r, id, 0, 0);
    } else {
        let r = choose|r: int| 0 <= r < markov.len() && (#[trigger] markov[r]).0 == id;
        law_markov_votes(markov, r, id, 0, 0);
    }
    if k > 0 {
        assert(votes[k - 1].id < votes[k].id);
    }
}

} // verus!
