//! End-to-end tests of the EKF-SLAM estimator.

use ekf_slam::ekf_slam::{Config, EkfSlam, Observation, UpdateOutcome};
use ekf_slam::fixed::{ONE, PI_FIX};

const SCALE_F: f64 = 65536.0;

fn fix(v: f64) -> i64 {
    (v * SCALE_F).round() as i64
}

fn unfix(v: i64) -> f64 {
    v as f64 / SCALE_F
}

fn cfg() -> Config {
    Config { sigma_range: fix(0.1), sigma_bearing: fix(0.05) }
}

fn cov_entry(e: &EkfSlam, i: usize, j: usize) -> i64 {
    let n = e.state.len();
    e.covariance[i * n + j]
}

fn assert_symmetric(e: &EkfSlam) {
    let n = e.state.len();
    assert_eq!(e.covariance.len(), n * n);
    for i in 0..n {
        for j in 0..n {
            assert_eq!(cov_entry(e, i, j), cov_entry(e, j, i));
        }
    }
}

fn assert_heading_wrapped(e: &EkfSlam) {
    assert!(e.state[2] > -PI_FIX && e.state[2] <= PI_FIX);
}

/// Eigenvalues of the covariance via the cyclic Jacobi method, in f64.
fn eigenvalues(e: &EkfSlam) -> Vec<f64> {
    let n = e.state.len();
    let mut a: Vec<Vec<f64>> = (0..n)
        .map(|i| (0..n).map(|j| unfix(cov_entry(e, i, j))).collect())
        .collect();
    for _sweep in 0..60 {
        let mut off = 0.0f64;
        for p in 0..n {
            for q in (p + 1)..n {
                off += a[p][q] * a[p][q];
            }
        }
        if off < 1e-18 {
            break;
        }
        for p in 0..n {
            for q in (p + 1)..n {
                if a[p][q].abs() < 1e-15 {
                    continue;
                }
                let theta = 0.5 * (a[q][q] - a[p][p]) / a[p][q];
                let t = theta.signum() / (theta.abs() + (theta * theta + 1.0).sqrt());
                let c = 1.0 / (t * t + 1.0).sqrt();
                let s = t * c;
                for k in 0..n {
                    let akp = a[k][p];
                    let akq = a[k][q];
                    a[k][p] = c * akp - s * akq;
                    a[k][q] = s * akp + c * akq;
                }
                for k in 0..n {
                    let apk = a[p][k];
                    let aqk = a[q][k];
                    a[p][k] = c * apk - s * aqk;
                    a[q][k] = s * apk + c * aqk;
                }
            }
        }
    }
    (0..n).map(|i| a[i][i]).collect()
}

fn assert_psd(e: &EkfSlam, eps: f64) {
    for ev in eigenvalues(e) {
        assert!(ev >= -eps, "eigenvalue {ev} below -{eps}");
    }
}

#[test]
fn fresh_estimator_shape() {
    let e = EkfSlam::new();
    assert_eq!(e.state, vec![0, 0, 0]);
    assert_eq!(e.covariance.len(), 9);
    assert_eq!(cov_entry(&e, 0, 0), 655);
    assert_eq!(cov_entry(&e, 1, 1), 655);
    assert_eq!(cov_entry(&e, 2, 2), 655);
    assert_eq!(cov_entry(&e, 0, 1), 0);
    assert!(e.observed_landmarks.is_empty());
    assert_symmetric(&e);
    assert_heading_wrapped(&e);
}

#[test]
fn straight_drive_scenario() {
    // P7: from (0,0,0), predict(1, 0, 1) lands at state [1, 0, 0] exactly.
    let mut e = EkfSlam::new();
    e.predict(ONE, 0, ONE);
    assert_eq!(e.state[0], ONE);
    assert_eq!(e.state[1], 0);
    assert_eq!(e.state[2], 0);
    assert_symmetric(&e);
    assert_heading_wrapped(&e);

    // A landmark seen at range 5, bearing 0 initializes at absolute (6, 0).
    let obs = Observation { id: 42, range: 5 * ONE, bearing: 0 };
    let outcome = e.update(&obs, &cfg());
    assert_eq!(outcome, UpdateOutcome::Initialized);
    assert_eq!(e.state.len(), 5);
    assert_eq!(e.covariance.len(), 25);
    assert_eq!(e.observed_landmarks, vec![(42, 3)]);
    assert_eq!(e.state[3], 6 * ONE);
    assert_eq!(e.state[4], 0);
    assert_symmetric(&e);
    assert_psd(&e, 1e-3);
}

#[test]
fn reobservation_with_zero_innovation_keeps_state() {
    // P8: re-observing exactly at the prediction changes no state entry.
    let mut e = EkfSlam::new();
    e.predict(ONE, 0, ONE);
    let obs = Observation { id: 7, range: 5 * ONE, bearing: 0 };
    let c = cfg();
    assert_eq!(e.update(&obs, &c), UpdateOutcome::Initialized);
    let state_before = e.state.clone();
    let diag_before: Vec<i64> = (0..5).map(|i| cov_entry(&e, i, i)).collect();
    let outcome = e.update(&obs, &c);
    assert_eq!(outcome, UpdateOutcome::Corrected);
    assert_eq!(e.state, state_before);
    assert_symmetric(&e);
    assert_psd(&e, 1e-3);
    // fusing a repeat sighting must not inflate any marginal variance
    for i in 0..5 {
        assert!(cov_entry(&e, i, i) <= diag_before[i] + 2);
    }
}

#[test]
fn degenerate_geometry_is_rejected() {
    // P9: a sighting whose predicted geometry is singular is skipped whole.
    let mut e = EkfSlam::new();
    let c = cfg();
    // landmark registered exactly at the robot's position
    let at_robot = Observation { id: 1, range: 0, bearing: 0 };
    assert_eq!(e.update(&at_robot, &c), UpdateOutcome::Initialized);
    let state_before = e.state.clone();
    let cov_before = e.covariance.clone();
    let again = Observation { id: 1, range: 0, bearing: 0 };
    assert_eq!(e.update(&again, &c), UpdateOutcome::RejectedDegenerate);
    assert_eq!(e.state, state_before);
    assert_eq!(e.covariance, cov_before);
    assert_symmetric(&e);
}

#[test]
fn negative_range_is_rejected_before_dispatch() {
    let mut e = EkfSlam::new();
    let c = cfg();
    let state_before = e.state.clone();
    let cov_before = e.covariance.clone();
    let bad = Observation { id: 9, range: -ONE, bearing: 0 };
    assert_eq!(e.update(&bad, &c), UpdateOutcome::RejectedNegativeRange);
    assert_eq!(e.state, state_before);
    assert_eq!(e.covariance, cov_before);
    assert!(e.observed_landmarks.is_empty());
}

#[test]
fn reregistration_is_idempotent() {
    // P4: the same new id registers exactly once.
    let mut e = EkfSlam::new();
    let c = cfg();
    let obs = Observation { id: 3, range: 2 * ONE, bearing: fix(0.4) };
    assert_eq!(e.update(&obs, &c), UpdateOutcome::Initialized);
    assert_eq!(e.state.len(), 5);
    assert_eq!(e.observed_landmarks.len(), 1);
    let second = e.update(&obs, &c);
    assert_ne!(second, UpdateOutcome::Initialized);
    assert_eq!(e.state.len(), 5);
    assert_eq!(e.observed_landmarks, vec![(3, 3)]);
}

#[test]
fn zero_dt_prediction_is_noop() {
    // P5: predict(v, w, 0) changes nothing, bit for bit.
    let mut e = EkfSlam::new();
    e.predict(fix(0.7), fix(-0.3), fix(0.25));
    let obs = Observation { id: 5, range: 3 * ONE, bearing: fix(1.0) };
    e.update(&obs, &cfg());
    let state_before = e.state.clone();
    let cov_before = e.covariance.clone();
    e.predict(fix(2.5), fix(-1.75), 0);
    assert_eq!(e.state, state_before);
    assert_eq!(e.covariance, cov_before);
}

#[test]
fn invariants_hold_along_a_run() {
    // P1, P2, P3 observed across a longer predict/update interleaving.
    let mut e = EkfSlam::new();
    let c = cfg();
    let landmarks = [(4.0, 1.0), (-2.0, 3.0), (0.5, -2.5)];
    for step in 0..12 {
        e.predict(fix(0.8), fix(0.3), fix(0.1));
        assert_symmetric(&e);
        assert_heading_wrapped(&e);
        for (id, (lx, ly)) in landmarks.iter().enumerate() {
            let rx = unfix(e.state[0]);
            let ry = unfix(e.state[1]);
            let rt = unfix(e.state[2]);
            let dx = lx - rx;
            let dy = ly - ry;
            let range = (dx * dx + dy * dy).sqrt();
            let bearing = (dy.atan2(dx) - rt).sin().atan2((dy.atan2(dx) - rt).cos());
            let obs = Observation { id, range: fix(range), bearing: fix(bearing) };
            let outcome = e.update(&obs, &c);
            assert_ne!(outcome, UpdateOutcome::RejectedNegativeRange);
            assert_symmetric(&e);
            assert_heading_wrapped(&e);
        }
        if step % 4 == 0 {
            assert_psd(&e, 1e-2);
        }
    }
    assert_eq!(e.state.len(), 3 + 2 * landmarks.len());
    // the estimate should sit near the true pose and landmarks
    for (id, (lx, ly)) in landmarks.iter().enumerate() {
        let off = e.observed_landmarks[id].1;
        assert!((unfix(e.state[off]) - lx).abs() < 0.5);
        assert!((unfix(e.state[off + 1]) - ly).abs() < 0.5);
    }
}

#[test]
fn tracked_corrections_commute_within_tolerance() {
    // P6: one tick's observations of tracked landmarks give the same result
    // whichever order they arrive in, within tolerance.
    let build = |order: [usize; 2]| -> EkfSlam {
        let mut e = EkfSlam::new();
        let c = cfg();
        let obs = [
            Observation { id: 0, range: 4 * ONE, bearing: fix(0.3) },
            Observation { id: 1, range: 3 * ONE, bearing: fix(-0.8) },
        ];
        assert_eq!(e.update(&obs[0], &c), UpdateOutcome::Initialized);
        assert_eq!(e.update(&obs[1], &c), UpdateOutcome::Initialized);
        e.predict(fix(0.2), fix(0.1), fix(0.5));
        let re = [
            Observation { id: 0, range: fix(3.8), bearing: fix(0.22) },
            Observation { id: 1, range: fix(3.1), bearing: fix(-0.85) },
        ];
        for k in order {
            assert_eq!(e.update(&re[k], &c), UpdateOutcome::Corrected);
        }
        e
    };
    let ab = build([0, 1]);
    let ba = build([1, 0]);
    assert_eq!(ab.state.len(), ba.state.len());
    for i in 0..ab.state.len() {
        assert!(
            (unfix(ab.state[i]) - unfix(ba.state[i])).abs() < 1e-2,
            "state entry {i} differs between orders"
        );
    }
    for i in 0..ab.covariance.len() {
        assert!((unfix(ab.covariance[i]) - unfix(ba.covariance[i])).abs() < 1e-2);
    }
}

#[test]
fn initialization_order_fixes_offsets_only() {
    // P6, new ids: the registered positions agree; only the offsets follow
    // arrival order.
    let c = cfg();
    let o1 = Observation { id: 10, range: 2 * ONE, bearing: fix(0.5) };
    let o2 = Observation { id: 20, range: 4 * ONE, bearing: fix(-1.1) };
    let mut a = EkfSlam::new();
    a.update(&o1, &c);
    a.update(&o2, &c);
    let mut b = EkfSlam::new();
    b.update(&o2, &c);
    b.update(&o1, &c);
    assert_eq!(a.observed_landmarks, vec![(10, 3), (20, 5)]);
    assert_eq!(b.observed_landmarks, vec![(20, 3), (10, 5)]);
    assert_eq!(&a.state[3..5], &b.state[5..7]);
    assert_eq!(&a.state[5..7], &b.state[3..5]);
}

#[test]
fn coordinate_helpers_roundtrip() {
    let mut e = EkfSlam::new();
    e.predict(fix(0.5), fix(0.9), ONE);
    let (x, y) = e.relative_to_absolute(3 * ONE, fix(0.7));
    let (range, bearing) = e.absolute_to_relative(x, y);
    assert!((unfix(range) - 3.0).abs() < 1e-2);
    assert!((unfix(bearing) - 0.7).abs() < 1e-2);
}
