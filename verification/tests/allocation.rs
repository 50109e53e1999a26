use denarii::algorithms::Algorithm;
use denarii::{SimError, SCALE};

/// Millionths of a unit of dimension `k` used under `coeffs`.
fn used(coeffs: &[u64], demands: &[Vec<u64>], k: usize) -> u64 {
    let mut total: u64 = 0;
    for (i, d) in demands.iter().enumerate() {
        total += coeffs[i] * d[k];
    }
    total
}

#[test]
fn capacity_feasibility() {
    let cases: Vec<(Vec<u64>, Vec<Vec<u64>>)> = vec![
        (vec![10, 10], vec![vec![4, 6], vec![6, 4]]),
        (vec![5, 3], vec![vec![5, 3], vec![5, 3], vec![5, 3]]),
        (vec![7, 11], vec![vec![1, 9], vec![6, 2], vec![3, 3], vec![0, 0]]),
        (vec![1, 1], vec![vec![1000, 1], vec![1, 1000]]),
        (vec![1000000], vec![vec![1]]),
    ];
    for alg in [Algorithm::Drf, Algorithm::Ceei, Algorithm::AssetFairness] {
        for (cap, demands) in &cases {
            let coeffs = alg.allocate(cap, demands).unwrap();
            for k in 0..cap.len() {
                assert!(used(&coeffs, demands, k) <= SCALE * cap[k]);
            }
        }
    }
}

#[test]
fn identical_inputs_identical_outputs() {
    let cap = vec![7, 5];
    let demands = vec![vec![3, 2], vec![5, 1], vec![0, 0]];
    for alg in [Algorithm::Drf, Algorithm::Ceei, Algorithm::AssetFairness] {
        let a = alg.allocate(&cap, &demands).unwrap();
        let b = alg.allocate(&cap, &demands).unwrap();
        assert_eq!(a, b);
    }
}

#[test]
fn length_and_range() {
    let cap = vec![9, 2, 4];
    let demands = vec![vec![3, 0, 1], vec![8, 2, 4], vec![1, 1, 1], vec![0, 0, 0]];
    for alg in [Algorithm::Drf, Algorithm::Ceei, Algorithm::AssetFairness] {
        let coeffs = alg.allocate(&cap, &demands).unwrap();
        assert_eq!(coeffs.len(), demands.len());
        for c in &coeffs {
            assert!(*c <= SCALE);
        }
        // No flows at all: an empty result.
        let none = alg.allocate(&cap, &Vec::new()).unwrap();
        assert!(none.is_empty());
    }
}

#[test]
fn drf_equalizes_dominant_shares() {
    let cap = vec![10, 10];
    let demands = vec![vec![4, 6], vec![6, 4]];
    let coeffs = Algorithm::Drf.allocate(&cap, &demands).unwrap();
    // By symmetry both flows get the same coefficient, here the whole
    // demand, and the dominant shares (6/10 each) are equal.
    assert_eq!(coeffs, vec![SCALE, SCALE]);
    assert_eq!(coeffs[0], coeffs[1]);
    // Full utilization on the bottleneck dimensions.
    assert_eq!(used(&coeffs, &demands, 0), SCALE * cap[0]);
    assert_eq!(used(&coeffs, &demands, 1), SCALE * cap[1]);
}

#[test]
fn drf_single_flow_saturates() {
    // A lone flow that fits within capacity is granted everything.
    let coeffs = Algorithm::Drf.allocate(&vec![10, 20], &vec![vec![4, 6]]).unwrap();
    assert_eq!(coeffs, vec![SCALE]);
}

#[test]
fn drf_contended_pair_gets_equal_dominant_shares() {
    // Both flows are dominated by a different resource; under contention
    // each is granted the same dominant share, five sixths of its demand.
    let cap = vec![10, 10];
    let demands = vec![vec![10, 2], vec![2, 10]];
    let coeffs = Algorithm::Drf.allocate(&cap, &demands).unwrap();
    assert_eq!(coeffs, vec![833_333, 833_333]);
    for k in 0..cap.len() {
        assert!(used(&coeffs, &demands, k) <= SCALE * cap[k]);
    }
}

#[test]
fn asset_fairness_equalizes_weighted_usage() {
    // The second flow weighs twice as much per unit, so it is granted half
    // the coefficient: both end up with the same capacity-weighted usage.
    let cap = vec![10, 10];
    let demands = vec![vec![5, 5], vec![10, 10]];
    let coeffs = Algorithm::AssetFairness.allocate(&cap, &demands).unwrap();
    assert_eq!(coeffs, vec![1_000_000, 500_000]);
    // Weighted usage: coefficient times sum of demand over capacity.
    let w1 = coeffs[0] * (demands[0][0] * SCALE / 10 + demands[0][1] * SCALE / 10);
    let w2 = coeffs[1] * (demands[1][0] * SCALE / 10 + demands[1][1] * SCALE / 10);
    assert_eq!(w1, w2);
}

#[test]
fn asset_fairness_symmetric_pair() {
    let coeffs = Algorithm::AssetFairness
        .allocate(&vec![10, 10], &vec![vec![4, 6], vec![6, 4]])
        .unwrap();
    assert_eq!(coeffs, vec![SCALE, SCALE]);
}

#[test]
fn ceei_single_flow_saturates() {
    let coeffs = Algorithm::Ceei.allocate(&vec![10, 20], &vec![vec![4, 6]]).unwrap();
    assert_eq!(coeffs, vec![SCALE]);
}

#[test]
fn ceei_symmetric_pair_clears() {
    // The two demands together exactly fill capacity: the market clears
    // with both flows granted everything.
    let cap = vec![10, 10];
    let demands = vec![vec![4, 6], vec![6, 4]];
    let coeffs = Algorithm::Ceei.allocate(&cap, &demands).unwrap();
    assert_eq!(coeffs, vec![SCALE, SCALE]);
    for k in 0..cap.len() {
        assert!(used(&coeffs, &demands, k) <= SCALE * cap[k]);
    }
}

#[test]
fn drf_saturates_fitting_pair() {
    // The two demands together exactly fill the first dimension: the
    // small flow freezes in the first round, the larger in the second,
    // and both are granted everything.
    let cap = vec![10, 1];
    let demands = vec![vec![1, 0], vec![9, 0]];
    let coeffs = Algorithm::Drf.allocate(&cap, &demands).unwrap();
    assert_eq!(coeffs, vec![SCALE, SCALE]);
    assert_eq!(used(&coeffs, &demands, 0), SCALE * cap[0]);
}

#[test]
fn drf_equalizes_after_freezing_a_small_flow() {
    // The small flow fits whole at the first-round level and freezes; the
    // freed capacity is then filled evenly, so the two identical flows
    // end with identical coefficients and equal dominant shares.
    let cap = vec![10];
    let demands = vec![vec![10], vec![10], vec![1]];
    let coeffs = Algorithm::Drf.allocate(&cap, &demands).unwrap();
    assert_eq!(coeffs, vec![450_000, 450_000, 1_000_000]);
    assert_eq!(coeffs[0], coeffs[1]);
    assert!(used(&coeffs, &demands, 0) <= SCALE * cap[0]);
}

#[test]
fn drf_fills_past_an_exhausted_dimension() {
    // The first dimension binds for the two flows that use it; the flow
    // on the uncontended dimension continues to one whole demand.
    let cap = vec![10, 10];
    let demands = vec![vec![10, 0], vec![0, 10], vec![10, 0]];
    let coeffs = Algorithm::Drf.allocate(&cap, &demands).unwrap();
    assert_eq!(coeffs, vec![500_000, 1_000_000, 500_000]);
    assert_eq!(used(&coeffs, &demands, 0), SCALE * cap[0]);
}

#[test]
fn zero_demand_gets_zero() {
    for alg in [Algorithm::Drf, Algorithm::Ceei, Algorithm::AssetFairness] {
        let coeffs = alg.allocate(&vec![4, 4], &vec![vec![0, 0], vec![2, 2]]).unwrap();
        assert_eq!(coeffs[0], 0);
    }
}

#[test]
fn zero_capacity_is_infeasible() {
    let r = Algorithm::Drf.allocate(&vec![10, 0], &vec![vec![1, 1]]);
    assert_eq!(r.unwrap_err(), SimError::InfeasibleInput);
}

#[test]
fn wrong_demand_length_is_infeasible() {
    let r = Algorithm::Drf.allocate(&vec![10, 10], &vec![vec![1, 1], vec![1]]);
    assert_eq!(r.unwrap_err(), SimError::InfeasibleInput);
}
