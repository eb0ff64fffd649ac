use ctmdp::error::Error;
use ctmdp::measure::{Measure, Probability};

fn prob(num: u64, den: u64) -> Probability {
    Probability::new(num, den).unwrap()
}

#[test]
fn probability_new_accepts_unit_interval() {
    assert!(Probability::new(0, 1).is_ok());
    assert!(Probability::new(1, 1).is_ok());
    assert!(Probability::new(1, 2).is_ok());
    assert!(Probability::new(999_999_999, 1_000_000_000).is_ok());
}

#[test]
fn probability_new_rejects_out_of_range() {
    assert_eq!(Probability::new(3, 2).unwrap_err(), Error::ProbabilityOutOfRange);
    assert_eq!(Probability::new(1, 0).unwrap_err(), Error::ProbabilityOutOfRange);
    assert_eq!(Probability::new(u64::MAX, 1).unwrap_err(), Error::ProbabilityOutOfRange);
}

#[test]
fn probability_value_round_trips_exactly() {
    for (n, d) in [(0u64, 1u64), (1, 1), (1, 3), (7, 9), (123_456, 1_000_000)] {
        let p = prob(n, d);
        assert_eq!(p.value(), (n, d));
    }
}

#[test]
fn probability_constants_are_the_interval_ends() {
    assert_eq!(Probability::zero().value(), (0, 1));
    assert_eq!(Probability::one().value(), (1, 1));
}

#[test]
fn probability_complement_is_exact() {
    let p = prob(1, 4);
    assert_eq!(p.complement().value(), (3, 4));
    assert_eq!(prob(1, 1).complement().value(), (0, 1));
    assert_eq!(prob(0, 1).complement().value(), (1, 1));
}

#[test]
fn probability_and_multiplies_exactly() {
    let p = prob(1, 2).and(prob(1, 3)).unwrap();
    assert_eq!(p.value(), (1, 6));
    let q = prob(3, 4).and(prob(2, 5)).unwrap();
    assert_eq!(q.value(), (6, 20));
}

#[test]
fn probability_and_rejects_unrepresentable_products() {
    let big = prob(u64::MAX - 1, u64::MAX);
    assert_eq!(big.and(big).unwrap_err(), Error::ProbabilityOutOfRange);
}

#[test]
fn probability_or_is_inclusion_exclusion() {
    // 1/2 + 1/3 - 1/6 == 4/6 over the common denominator 6
    let p = prob(1, 2).or(prob(1, 3)).unwrap();
    assert_eq!(p.value(), (4, 6));
    let q = prob(1, 1).or(prob(1, 2)).unwrap();
    assert_eq!(q.value(), (2, 2));
}

#[test]
fn from_distribution_accepts_unit_sum() {
    let m = Measure::from_distribution(vec![(0u64, prob(1, 2)), (1u64, prob(1, 2))]).unwrap();
    assert_eq!(m.dist().len(), 2);
}

#[test]
fn from_distribution_accepts_mixed_denominators() {
    let m = Measure::from_distribution(vec![
        (0u64, prob(1, 2)),
        (1u64, prob(1, 3)),
        (2u64, prob(1, 6)),
    ])
    .unwrap();
    assert_eq!(m.dist().len(), 3);
}

#[test]
fn from_distribution_rejects_sum_below_one() {
    let r = Measure::from_distribution(vec![(0u64, prob(1, 2)), (1u64, prob(1, 3))]);
    assert_eq!(r.unwrap_err(), Error::InvalidMeasure);
}

#[test]
fn from_distribution_rejects_sum_above_one() {
    let r = Measure::from_distribution(vec![(0u64, prob(2, 3)), (1u64, prob(1, 2))]);
    assert_eq!(r.unwrap_err(), Error::InvalidMeasure);
}

#[test]
fn from_distribution_rejects_repeated_values() {
    let r = Measure::from_distribution(vec![(7u64, prob(1, 2)), (7u64, prob(1, 2))]);
    assert_eq!(r.unwrap_err(), Error::InvalidMeasure);
}

#[test]
fn from_distribution_rejects_empty_distribution() {
    let r = Measure::from_distribution(Vec::<(u64, Probability)>::new());
    assert_eq!(r.unwrap_err(), Error::InvalidMeasure);
}

#[test]
fn deterministic_sample_always_returns_the_value() {
    let m = Measure::deterministic(42u64);
    for _ in 0..100 {
        assert_eq!(m.sample(), Some(42));
    }
}

#[test]
fn sample_returns_a_carried_value() {
    let m = Measure::from_distribution(vec![(0u64, prob(1, 2)), (1u64, prob(1, 2))]).unwrap();
    for _ in 0..100 {
        let v = m.sample().unwrap();
        assert!(v == 0 || v == 1);
    }
}

#[test]
fn get_prob_finds_each_value() {
    let m = Measure::from_distribution(vec![(0u64, prob(1, 4)), (1u64, prob(3, 4))]).unwrap();
    assert_eq!(m.get_prob(&0).unwrap().value(), (1, 4));
    assert_eq!(m.get_prob(&1).unwrap().value(), (3, 4));
    assert!(m.get_prob(&2).is_none());
}

fn joint_weight(m: &Measure<(u64, u64)>, key: (u64, u64)) -> (u64, u64) {
    for (k, p) in m.dist().iter() {
        if *k == key {
            return p.value();
        }
    }
    panic!("pair not carried by the joint measure");
}

#[test]
fn product_weights_are_exact_products() {
    let a = Measure::from_distribution(vec![(0u64, prob(1, 2)), (1u64, prob(1, 2))]).unwrap();
    let b = Measure::from_distribution(vec![(0u64, prob(1, 3)), (1u64, prob(2, 3))]).unwrap();
    let joint = a.product(&b).unwrap();
    assert_eq!(joint.dist().len(), 4);
    assert_eq!(joint_weight(&joint, (0, 0)), (1, 6));
    assert_eq!(joint_weight(&joint, (0, 1)), (2, 6));
    assert_eq!(joint_weight(&joint, (1, 0)), (1, 6));
    assert_eq!(joint_weight(&joint, (1, 1)), (2, 6));
}

#[test]
fn product_total_mass_is_one() {
    let a = Measure::from_distribution(vec![(0u64, prob(1, 4)), (1u64, prob(3, 4))]).unwrap();
    let b = Measure::from_distribution(vec![(10u64, prob(2, 5)), (11u64, prob(3, 5))]).unwrap();
    let joint = a.product(&b).unwrap();
    // all weights share the denominator 20: the numerators must add to 20
    let mut total = 0u64;
    for (_, p) in joint.dist().iter() {
        let (num, den) = p.value();
        assert_eq!(den, 20);
        total += num;
    }
    assert_eq!(total, 20);
}

#[test]
fn product_of_deterministic_measures_is_deterministic() {
    let a = Measure::deterministic(1u64);
    let b = Measure::deterministic(2u64);
    let joint = a.product(&b).unwrap();
    assert_eq!(joint.dist().len(), 1);
    assert_eq!(joint.dist()[0].0, (1, 2));
    assert_eq!(joint.dist()[0].1.value(), (1, 1));
}

#[test]
fn pick_walks_cumulative_weights() {
    let m = Measure::from_distribution(vec![(0u64, prob(1, 2)), (1u64, prob(1, 2))]).unwrap();
    // half the scale on each value: a zero target picks the first value,
    // a target past the whole cumulative weight falls to the last one
    assert_eq!(m.pick(0), 0);
    assert_eq!(m.pick((1u128 << 31) - 1), 0);
    assert_eq!(m.pick(1u128 << 31), 1);
    assert_eq!(m.pick(u128::MAX), 1);
}
