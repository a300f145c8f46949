use ssd_moe::predictors::locality::LocalityMonitor;
use ssd_moe::predictors::markov::MarkovPredictor;
use ssd_moe::predictors::pooling::absorb;
use ssd_moe::predictors::probability::Probability;
use ssd_moe::predictors::ranking::{rank_pairs, ranking, Score};
use ssd_moe::predictors::{ArmVotes, PredictiveLoader};

const W_MARKOV: f32 = 0.33;
const W_LOCALITY: f32 = 0.25;

fn hot(m: &LocalityMonitor, pct: f64) -> Vec<u32> {
    m.hot_set(min_count(m, pct))
}

fn min_count(m: &LocalityMonitor, pct: f64) -> usize {
    (m.total() as f64 * pct).ceil() as usize
}

fn value(p: &Probability) -> f64 {
    p.num as f64 / p.den as f64
}

fn decay(rank: usize) -> f32 {
    1.0 - 0.0001 * rank as f32
}

fn score(v: &ArmVotes) -> f32 {
    let mut sum = 0.0f32;
    for (rank, p) in &v.markov {
        sum += W_MARKOV * (value(p) as f32) * decay(*rank);
    }
    for rank in &v.locality {
        sum += W_LOCALITY * decay(*rank);
    }
    sum
}

fn scored(votes: &[ArmVotes]) -> Vec<(u32, f32)> {
    let keys: Vec<i64> = votes.iter().map(|v| score(v).to_bits() as i64).collect();
    ranking(&keys).iter().map(|&i| (votes[i].id, score(&votes[i]))).collect()
}

fn share(num: u128, den: u128) -> Probability {
    Probability { num, den }
}

#[test]
fn hot_set_threshold() {
    let mut m = LocalityMonitor::new(8, 16);
    for _ in 0..8 {
        m.observe_one(2);
    }
    for _ in 0..3 {
        m.observe_one(0);
    }
    for i in 4..9 {
        m.observe_one(i as u32 % 8);
    }
    let hot = hot(&m, 0.10);
    assert!(hot.contains(&2));
    assert!(hot.contains(&0));
}

#[test]
fn sliding_window_evicts_old() {
    let mut m = LocalityMonitor::new(8, 4);
    for _ in 0..4 {
        m.observe_one(0);
    }
    for _ in 0..4 {
        m.observe_one(1);
    }
    let hot = hot(&m, 0.10);
    assert_eq!(hot, vec![1]);
}

#[test]
fn the_window_holds_the_latest() {
    let mut m = LocalityMonitor::new(10, 3);
    assert_eq!(m.hot_set(0), Vec::<u32>::new());
    m.observe(&[9, 1, 9, 4, 2]);
    assert_eq!(m.total(), 3);
    assert_eq!(m.hot_set(1), vec![2, 4, 9]);
    assert_eq!(m.hot_set(2), Vec::<u32>::new());
    m.observe(&[2]);
    assert_eq!(m.hot_set(2), vec![2]);
    assert_eq!(m.hot_set(0), vec![0, 1, 2, 3, 4, 5, 6, 7, 8, 9]);
}

#[test]
fn a_window_of_size_zero_holds_one() {
    let mut m = LocalityMonitor::new(4, 0);
    m.observe(&[3, 1]);
    assert_eq!(m.total(), 1);
    assert_eq!(m.hot_set(1), vec![1]);
}

#[test]
fn first_order_learning() {
    let mut p = MarkovPredictor::new(8);
    for _ in 0..20 {
        p.observe_step(&[0], &[1]);
    }
    let preds = p.predict_next(None, 0);
    assert_eq!(preds[0].0, 1);
    assert!(value(&preds[0].1) > 0.7);
    assert_eq!((preds[0].1.num, preds[0].1.den), (21, 28));
}

#[test]
fn cold_start_is_uniform() {
    let p = MarkovPredictor::new(8);
    let preds = p.predict_next(None, 0);
    assert_eq!(preds.len(), 8);
    for (_, prob) in &preds {
        assert!((value(prob) - 0.125).abs() < 0.001);
    }
}

#[test]
fn shares_sum_to_one() {
    let mut p = MarkovPredictor::new(6);
    p.observe_step(&[2], &[3, 1, 3]);
    p.observe_step(&[2, 4], &[5]);
    let preds = p.predict_next(None, 2);
    assert_eq!(preds.iter().map(|e| e.1.num).sum::<u128>(), 10);
    assert!(preds.iter().all(|e| e.1.den == 10));
}

#[test]
fn level_counts_keep_the_order_of_the_experts() {
    let mut p = MarkovPredictor::new(5);
    p.observe_step(&[2], &[3, 1, 3]);
    let preds = p.predict_next(None, 2);
    let ids: Vec<u32> = preds.iter().map(|e| e.0).collect();
    assert_eq!(ids, vec![3, 1, 0, 2, 4]);
    let nums: Vec<u128> = preds.iter().map(|e| e.1.num).collect();
    assert_eq!(nums, vec![3, 2, 1, 1, 1]);
    assert!(preds.iter().all(|e| e.1.den == 8));
}

#[test]
fn a_pair_decides_once_it_was_seen_often_enough() {
    let mut p = MarkovPredictor::new(4);
    // 0 then 1 is followed by 2, but 3 then 1 by 3.
    for _ in 0..9 {
        p.observe_step(&[0], &[1]);
        p.observe_step(&[1], &[2]);
        p.observe_step(&[3], &[1]);
        p.observe_step(&[1], &[3]);
        p.observe_step(&[1], &[3]);
    }
    // The pair (0, 1) was seen nine times: what follows 1 decides.
    assert_eq!(p.predict_next(Some(0), 1)[0].0, 3);
    assert!(p.can_sum(Some(0), 1));
    p.observe_step(&[0], &[1]);
    p.observe_step(&[1], &[2]);
    // Ten times: the pair decides.
    let preds = p.predict_next(Some(0), 1);
    assert_eq!(preds[0].0, 2);
    assert_eq!((preds[0].1.num, preds[0].1.den), (11, 14));
    assert_eq!(p.predict_next(None, 1)[0].0, 3);
}

#[test]
fn repeated_experts_count_repeatedly() {
    let mut p = MarkovPredictor::new(3);
    p.observe_step(&[0, 0], &[1, 2, 1]);
    let preds = p.predict_next(None, 0);
    // 1 followed four times, 2 twice, of six followers in all.
    assert_eq!(preds[0].0, 1);
    assert_eq!((preds[0].1.num, preds[0].1.den), (5, 9));
    assert_eq!((preds[1].0, preds[1].1.num), (2, 3));
}

#[test]
fn a_set_prediction_keeps_the_highest_probability() {
    let mut p = MarkovPredictor::new(3);
    p.observe_step(&[0], &[1]);
    p.observe_step(&[2], &[1, 1, 1]);
    p.observe_step(&[2], &[0]);
    let preds = p.predict_for_set(&[], &[0, 2]);
    let mut seen: Vec<u32> = preds.iter().map(|e| e.0).collect();
    seen.sort();
    assert_eq!(seen, vec![0, 1, 2]);
    // After 0: 1 has 2/4, the others 1/4. After 2: 1 has 4/7, 0 has 2/7, 2 has 1/7.
    assert_eq!((preds[0].0, preds[0].1.num, preds[0].1.den), (1, 4, 7));
    assert_eq!((preds[1].0, preds[1].1.num, preds[1].1.den), (0, 2, 7));
    assert_eq!((preds[2].0, preds[2].1.num, preds[2].1.den), (2, 1, 4));
    assert!(p.predict_for_set(&[], &[]).is_empty());
}

fn flat(preds: &[(u32, Probability)]) -> Vec<(u32, u128, u128)> {
    preds.iter().map(|e| (e.0, e.1.num, e.1.den)).collect()
}

#[test]
fn a_set_of_one_predicts_as_its_expert() {
    let mut p = MarkovPredictor::new(5);
    p.observe_step(&[0, 2], &[1, 4, 4]);
    p.observe_step(&[2], &[0]);
    for id in 0..5 {
        assert_eq!(flat(&p.predict_for_set(&[], &[id])), flat(&p.predict_next(None, id)));
        assert_eq!(flat(&p.predict_for_set(&[3, 1], &[id])), flat(&p.predict_next(Some(1), id)));
    }
}

#[test]
fn repeated_members_change_nothing() {
    let mut p = MarkovPredictor::new(4);
    p.observe_step(&[0], &[1, 2]);
    p.observe_step(&[3], &[2, 2]);
    let once = flat(&p.predict_for_set(&[], &[0, 3]));
    assert_eq!(flat(&p.predict_for_set(&[], &[0, 0, 3])), once);
    assert_eq!(flat(&p.predict_for_set(&[], &[0, 3, 0, 3])), once);
    assert_eq!(once.len(), 4);
}

#[test]
fn a_set_prediction_goes_by_the_last_of_the_set_before() {
    let mut p = MarkovPredictor::new(3);
    for _ in 0..10 {
        p.observe_step(&[0], &[1]);
        p.observe_step(&[1], &[2]);
        p.observe_step(&[2], &[1]);
        p.observe_step(&[1], &[0]);
        p.observe_step(&[1], &[0]);
    }
    assert_eq!(p.predict_for_set(&[2, 0], &[1])[0].0, 2);
    assert_eq!(p.predict_for_set(&[0, 2], &[1])[0].0, 0);
}

#[test]
fn steps_outside_the_model_are_not_observable() {
    let mut p = MarkovPredictor::new(4);
    assert!(p.can_observe(&[3], &[3]));
    assert!(!p.can_observe(&[4], &[0]));
    // Followers out of range are counted as long as they form no pair.
    assert!(p.can_observe(&[0], &[9]));
    p.observe_step(&[0], &[9]);
    assert!(!p.can_observe(&[0], &[9]));
    assert!(p.can_observe(&[], &[9]));
    assert!(p.knows(&[0, 3]) && !p.knows(&[0, 4]));
    let preds = p.predict_next(None, 0);
    assert_eq!((preds[0].0, preds[0].1.num, preds[0].1.den), (0, 1, 5));
    assert!(p.can_sum(None, 0) && p.can_sum(Some(7), 0));
}

#[test]
fn fractions_are_compared_exactly() {
    let top = 0x1_0000_0000_0000_0000u128;
    assert!(share(2, 3).is_above(&share(1, 2)));
    assert!(!share(1, 2).is_above(&share(2, 3)));
    assert!(!share(1, 2).is_above(&share(2, 4)));
    assert!(!share(2, 4).is_above(&share(1, 2)));
    let big = 2 * top - 1;
    assert!(share(top, big - 1).is_above(&share(top, big)));
    assert!(!share(top, big).is_above(&share(top, big - 1)));
    assert!(!share(top, big).is_above(&share(top, big)));
    assert!(share(top, big).is_above(&share(top - 1, big)));
    let p = Probability::smoothed(u64::MAX, u64::MAX, 3);
    assert_eq!((p.num, p.den), (top, top + 2));
}

#[test]
fn pooling_keeps_one_entry_per_id() {
    let mut pool: Vec<(u32, Probability)> = Vec::new();
    absorb(&mut pool, 4, share(1, 4));
    absorb(&mut pool, 2, share(1, 2));
    absorb(&mut pool, 4, share(1, 5));
    absorb(&mut pool, 4, share(1, 3));
    let flat: Vec<(u32, u128, u128)> = pool.iter().map(|e| (e.0, e.1.num, e.1.den)).collect();
    assert_eq!(flat, vec![(4, 1, 3), (2, 1, 2)]);
}

#[test]
fn ranking_is_stable() {
    assert_eq!(ranking(&vec![5i64, 9, 5, 9, -1]), vec![1, 3, 0, 2, 4]);
    assert_eq!(ranking(&Vec::<u64>::new()), Vec::<usize>::new());
    let ranked = rank_pairs(&vec![(7u32, 1u64), (8, 3), (9, 3)]);
    assert_eq!(ranked, vec![(8, 3), (9, 3), (7, 1)]);
}

#[test]
fn unified_combine_ranks_multi_arm_expert_highest() {
    let pl = PredictiveLoader::new(8, 4);
    let markov = vec![(1u32, share(1, 1))];
    let locality = vec![2u32];
    let out = scored(&pl.combine_unified_arms(&markov, &locality));
    assert_eq!(out[0].0, 1);
    assert_eq!(out[1].0, 2);
}

#[test]
fn unified_combine_merges_same_id() {
    let pl = PredictiveLoader::new(8, 4);
    let markov = vec![(3u32, share(4, 5))];
    let locality = vec![3u32];
    let out = scored(&pl.combine_unified_arms(&markov, &locality));
    assert_eq!(out.len(), 1);
    let expected = W_MARKOV * 0.8 + W_LOCALITY;
    assert!((out[0].1 - expected).abs() < 0.01);
}

#[test]
fn observe_and_predict_learns() {
    let mut pl = PredictiveLoader::new(8, 4);
    let loc = LocalityMonitor::new(8, 32);
    for _ in 0..50 {
        assert!(pl.can_observe(&[0], &[1]));
        pl.observe_and_predict(&[0], &[1], Some(&loc), min_count(&loc, 0.10));
    }
    let votes = pl.observe_and_predict(&[1], &[1], Some(&loc), min_count(&loc, 0.10));
    let keys: Vec<(u32, i64)> =
        votes.iter().map(|v| (v.id, score(v).to_bits() as i64)).collect();
    let preds = pl.select(&keys);
    assert!(!preds.is_empty());
    assert_eq!(preds.len(), 4);
    assert_eq!(preds[0], 1);
    assert!(hot(&loc, 0.10).is_empty());
}

#[test]
fn votes_are_gathered_by_expert() {
    let pl = PredictiveLoader::new(8, 4);
    let markov = vec![(6u32, share(1, 2)), (1, share(1, 3)), (6, share(1, 4))];
    let votes = pl.combine_unified_arms(&markov, &[9, 1, 9]);
    let ids: Vec<u32> = votes.iter().map(|v| v.id).collect();
    assert_eq!(ids, vec![1, 6, 9]);
    assert_eq!(votes[0].markov.len(), 1);
    assert_eq!((votes[0].markov[0].0, votes[0].markov[0].1.den), (1, 3));
    assert_eq!(votes[0].locality, vec![1]);
    let places: Vec<usize> = votes[1].markov.iter().map(|m| m.0).collect();
    assert_eq!(places, vec![0, 2]);
    assert!(votes[1].locality.is_empty());
    assert!(votes[2].markov.is_empty());
    assert_eq!(votes[2].locality, vec![0, 2]);
    assert!(pl.combine_unified_arms(&[], &[]).is_empty());
}

#[test]
fn the_monitor_votes_for_its_hot_experts() {
    let mut pl = PredictiveLoader::new(4, 2);
    let mut loc = LocalityMonitor::new(4, 8);
    loc.observe(&[3, 3, 2]);
    let votes = pl.observe_and_predict(&[0], &[1], Some(&loc), 2);
    assert_eq!(votes.len(), 4);
    assert_eq!(votes[3].locality, vec![0]);
    assert!(votes[2].locality.is_empty());
    let none = pl.observe_and_predict(&[0], &[1], None, 2);
    assert!(none.iter().all(|v| v.locality.is_empty()));
}

#[test]
fn no_more_experts_are_selected_than_fetched() {
    let pl = PredictiveLoader::new(8, 2);
    assert_eq!(pl.select(&vec![(5, 1), (6, 3), (7, 3)]), vec![6, 7]);
    assert_eq!(pl.select(&vec![(5, 1)]), vec![5]);
    assert_eq!(PredictiveLoader::new(8, 0).select(&vec![(5, 1)]), Vec::<u32>::new());
}
