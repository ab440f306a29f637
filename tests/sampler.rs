use morkovmap::sampler::{DistributionError, MultinomialDistribution};

#[test]
fn uniform_weights_work() {
    let keys = vec![1, 2];
    let dist = MultinomialDistribution::uniform_over(keys);
    assert_eq!(dist.total_weights(), 2);
    assert_eq!(dist.weight_of(1), 1);
    assert_eq!(dist.weight_of(2), 1);
    assert_eq!(dist.weight_of(3), 0);
    assert_eq!(dist.len(), 2);
}

#[test]
fn uniform_over_counts_repeated_labels_once() {
    let dist = MultinomialDistribution::uniform_over(vec![4, 4, 5]);
    assert_eq!(dist.total_weights(), 2);
    assert_eq!(dist.weight_of(4), 1);
}

#[test]
fn sampling_works() {
    let dist = MultinomialDistribution::uniform_over(vec![1, 2]);
    let mut rng = rand::thread_rng();
    let draw = rand::Rng::gen_range(&mut rng, 0..dist.total_weights());
    let sample = dist.sample_at(draw);
    assert!(sample > 0);
    assert!(sample < 3);
}

#[test]
fn sampling_with_default_works() {
    let dist = MultinomialDistribution::uniform_over(vec![1, 2]);
    let sample = dist.sample_with_default_rng().unwrap();
    assert!(sample > 0);
    assert!(sample < 3);
}

#[test]
fn sampling_empty_gives_nothing() {
    assert_eq!(MultinomialDistribution::empty().sample_with_default_rng(), None);
}

#[test]
fn weights_round_trip() {
    let d = MultinomialDistribution::from_weights(vec![(3, 4), (1, 0), (2, 7)]).unwrap();
    assert_eq!(d.weights(), vec![(3, 4), (2, 7)]);
    assert_eq!(d.weight_of(1), 0);
    assert_eq!(d.total_weights(), 11);
}

#[test]
fn duplicate_label_is_refused() {
    let r = MultinomialDistribution::from_weights(vec![(1, 2), (1, 3)]);
    assert_eq!(r.unwrap_err(), DistributionError::DuplicateLabel);
}

#[test]
fn joint_product_scenario() {
    // a = 1, b = 2, c = 3
    let d1 = MultinomialDistribution::from_weights(vec![(1, 2), (2, 3)]).unwrap();
    let d2 = MultinomialDistribution::from_weights(vec![(1, 5), (2, 5), (3, 1)]).unwrap();
    let j = d1.joint_probability(&d2);
    assert_eq!(j.weights(), vec![(1, 10), (2, 15)]);
    // the real joint weights 10/11 and 15/11 stand in the same ratio
    assert_eq!(j.weight_of(1) * 15, j.weight_of(2) * 10);
    let scaled = MultinomialDistribution::from_weights(vec![(1, 4), (2, 6)]).unwrap();
    let js = scaled.joint_probability(&d2);
    assert_eq!(js.weight_of(1) * j.weight_of(2), js.weight_of(2) * j.weight_of(1));
}

#[test]
fn joint_is_commutative() {
    let d1 = MultinomialDistribution::from_weights(vec![(1, 2), (2, 3), (4, 1)]).unwrap();
    let d2 = MultinomialDistribution::from_weights(vec![(2, 5), (1, 5), (3, 1)]).unwrap();
    let a = d1.joint_probability(&d2);
    let b = d2.joint_probability(&d1);
    for l in 0..6 {
        assert_eq!(a.weight_of(l), b.weight_of(l));
    }
    assert_eq!(a.len(), 2);
}

#[test]
fn joint_of_disjoint_is_empty() {
    let d1 = MultinomialDistribution::from_weights(vec![(1, 2)]).unwrap();
    let d2 = MultinomialDistribution::from_weights(vec![(2, 5)]).unwrap();
    assert!(d1.joint_probability(&d2).is_empty());
}

#[test]
fn joint_of_large_weights_is_scaled() {
    let big = 1u64 << 40;
    let d1 = MultinomialDistribution::from_weights(vec![(1, big), (2, big / 2)]).unwrap();
    let d2 = MultinomialDistribution::from_weights(vec![(1, big), (2, big)]).unwrap();
    let j = d1.joint_probability(&d2);
    // products 2^80 and 2^79, divided by 2^17 so that the larger fits a u64
    assert_eq!(j.weights(), vec![(1, 1u64 << 63), (2, 1u64 << 62)]);
    assert_eq!(d1.joint_probability_weights(&d2), j.weights());
}

#[test]
fn scaled_joint_keeps_small_labels() {
    let d1 = MultinomialDistribution::from_weights(vec![(1, u64::MAX), (2, 1)]).unwrap();
    let d2 = MultinomialDistribution::from_weights(vec![(1, u64::MAX), (2, 1)]).unwrap();
    let j = d1.joint_probability(&d2);
    assert_eq!(j.len(), 2);
    assert_eq!(j.weight_of(2), 1);
}

#[test]
fn repeated_joints_stay_bounded() {
    let rule = MultinomialDistribution::from_weights(vec![(1, 1_000_000), (2, 5_000_000), (3, 3_000_000)]).unwrap();
    let mut d = MultinomialDistribution::uniform_over(vec![1, 2, 3]);
    for _ in 0..8 {
        d = rule.joint_probability(&d);
    }
    assert_eq!(d.len(), 3);
    // ratios follow the rule raised to the eighth power, to within rounding
    let r = d.weight_of(2) as f64 / d.weight_of(1) as f64;
    assert!((r - 5f64.powi(8)).abs() / 5f64.powi(8) < 1e-6);
}

#[test]
fn sample_at_walks_in_order() {
    let d = MultinomialDistribution::from_weights(vec![(7, 2), (8, 3)]).unwrap();
    let picks: Vec<i32> = (0..5).map(|u| d.sample_at(u)).collect();
    assert_eq!(picks, vec![7, 7, 8, 8, 8]);
}

#[test]
fn sampling_frequencies_follow_weights() {
    let d = MultinomialDistribution::from_weights(vec![(1, 1), (2, 3)]).unwrap();
    let n = 20000;
    let mut ones = 0;
    for _ in 0..n {
        if d.sample_with_default_rng() == Some(1) {
            ones += 1;
        }
    }
    let freq = ones as f64 / n as f64;
    assert!((freq - 0.25).abs() < 0.03);
}

#[test]
fn large_total_fits() {
    let d = MultinomialDistribution::from_weights(vec![(1, u64::MAX), (2, u64::MAX)]).unwrap();
    assert_eq!(d.total_weights(), 2 * (u64::MAX as u128));
    assert_eq!(d.sample_at(u64::MAX as u128), 2);
}

#[test]
fn sampling_single_label() {
    let d = MultinomialDistribution::from_weights(vec![(5, 1)]).unwrap();
    for _ in 0..10 {
        assert_eq!(d.sample_with_default_rng(), Some(5));
    }
}
