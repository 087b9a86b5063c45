//! Laws of the estimator, stated and proved over the contracts of
//! `predict` and `update`.
//!
//! Each proof function here is a public statement of a property that the
//! estimator's operations guarantee: the contracts of `predict` and
//! `update` ensure `wf()` and describe every entry of the result, and these
//! lemmas derive the properties a caller relies on.

use vstd::prelude::*;
use crate::fixed::{ONE, HALF, PI_FIX, fxadd, fxmul, lemma_fxadd_zero, lemma_fxmul_zero_one};
use crate::trig::lemma_normalize_identity;
use crate::ekf_slam::{
    EkfSlam, Observation, Config, UpdateOutcome, spec_has_id, spec_update_outcome,
    spec_predict_state, spec_predict_cov, spec_predict_prr, spec_predict_cross, spec_theta_mid,
    spec_fx_mat, spec_fnoise_mat, spec_prr_a, spec_prr_fpf, spec_fnn, spec_noise_term,
    spec_corr_state, spec_corr_delta, spec_y0, spec_y1,
};

verus! {

/// Covariance symmetry: after any sequence of `predict` / `update` calls the
/// estimator is well-formed (each call's contract ensures it), and a
/// well-formed covariance equals its transpose, entry for entry.
pub proof fn lemma_covariance_symmetric(e: &EkfSlam)
    requires
        e.wf(),
    ensures
        forall|i: int, j: int|
            0 <= i < e.n() && 0 <= j < e.n() ==> #[trigger] e.cov_at(i, j) == e.cov_at(j, i),
{
}

/// Heading range: a well-formed estimator always carries a heading in
/// `(-PI_FIX, PI_FIX]`, so the heading is wrapped after any `predict` or
/// `update`.
pub proof fn lemma_heading_in_range(e: &EkfSlam)
    requires
        e.wf(),
    ensures
        -(PI_FIX as int) < e.st(2) <= PI_FIX as int,
{
}

/// Idempotence of re-registration: when an unseen landmark id is observed
/// (with a valid range), `update` registers it, and from then on the id is
/// known, so a second `update` with the same id can never initialize again
/// (its outcome is a correction or a degenerate skip, and `update`'s
/// contract keeps the registry and state length unchanged for known ids).
pub proof fn lemma_reregistration_idempotent(
    e0: EkfSlam,
    e1: EkfSlam,
    obs1: Observation,
    obs2: Observation,
    cfg1: Config,
    cfg2: Config,
)
    requires
        obs1.id == obs2.id,
        obs1.range >= 0,
        obs2.range >= 0,
        !spec_has_id(e0.observed_landmarks@, obs1.id),
        e1.observed_landmarks@ == e0.observed_landmarks@.push(
            (obs1.id, e0.state@.len() as usize),
        ),
    ensures
        spec_update_outcome(e0, obs1, cfg1) == UpdateOutcome::Initialized,
        spec_has_id(e1.observed_landmarks@, obs2.id),
        spec_update_outcome(e1, obs2, cfg2) != UpdateOutcome::Initialized,
{
    let k = e0.observed_landmarks@.len() as int;
    assert(e1.observed_landmarks@[k].0 == obs2.id);
}

/// The motion Jacobian collapses to the identity when no time has passed.
proof fn lemma_noop_fx(e: EkfSlam, v: int, w: int, i: int, k: int)
    requires
        e.wf(),
        0 <= i < 3,
        0 <= k < 3,
    ensures
        spec_fx_mat(spec_theta_mid(e.st(2), w, 0), v, 0, i, k) == (if i == k {
            ONE as int
        } else {
            0int
        }),
{
    let tm = spec_theta_mid(e.st(2), w, 0);
    assert(fxmul(v, 0) == 0);
    assert(fxmul(fxmul(v, 0), crate::trig::spec_sin(tm)) == 0);
    assert(fxmul(fxmul(v, 0), crate::trig::spec_cos(tm)) == 0);
}

/// One row of `F_x * P_rr` is the matching covariance row when `F_x` is the
/// identity.
proof fn lemma_noop_prr_a(e: EkfSlam, v: int, w: int, i: int, k: int)
    requires
        e.wf(),
        0 <= i < 3,
        0 <= k < 3,
    ensures
        spec_prr_a(e, v, w, 0, i, k) == e.cov_at(i, k),
{
    lemma_noop_fx(e, v, w, i, 0);
    lemma_noop_fx(e, v, w, i, 1);
    lemma_noop_fx(e, v, w, i, 2);
    lemma_fxmul_zero_one(e.cov_at(0, k));
    lemma_fxmul_zero_one(e.cov_at(1, k));
    lemma_fxmul_zero_one(e.cov_at(2, k));
    lemma_fxadd_zero(e.cov_at(i, k));
    assert(fxadd(0, e.cov_at(1, k)) == e.cov_at(1, k));
}

/// No time, no process noise: the noise term vanishes entirely because the
/// noise Jacobian is zero at `dt == 0`.
proof fn lemma_noop_noise(tm: int, v: int, w: int, i: int, j: int)
    requires
        0 <= i < 3,
        0 <= j < 3,
    ensures
        spec_noise_term(tm, v, w, 0, i, j) == 0,
{
    assert(fxmul(crate::trig::spec_cos(tm), 0) == 0);
    assert(fxmul(crate::trig::spec_sin(tm), 0) == 0);
    assert(spec_fnoise_mat(tm, 0, i, 0) == 0);
    assert(spec_fnoise_mat(tm, 0, i, 1) == 0);
    assert(fxmul(0, crate::ekf_slam::spec_nmat(v, w, 0, 0)) == 0);
    assert(fxmul(0, crate::ekf_slam::spec_nmat(v, w, 0, 1)) == 0);
    assert(fxmul(0, crate::ekf_slam::spec_nmat(v, w, 1, 0)) == 0);
    assert(fxmul(0, crate::ekf_slam::spec_nmat(v, w, 1, 1)) == 0);
    assert(spec_fnn(tm, v, w, 0, i, 0) == 0);
    assert(spec_fnn(tm, v, w, 0, i, 1) == 0);
}

/// No-op prediction: with `delta_time == 0`, the predicted state and every
/// predicted covariance entry equal the current ones; together with
/// `predict`'s contract, `predict(v, w, 0)` leaves the estimator unchanged.
pub proof fn lemma_prediction_noop(e: EkfSlam, v: int, w: int)
    requires
        e.wf(),
    ensures
        forall|i: int| 0 <= i < e.n() ==> #[trigger] spec_predict_state(e, v, w, 0, i) == e.st(i),
        forall|i: int, j: int|
            0 <= i < e.n() && 0 <= j < e.n() ==> #[trigger] spec_predict_cov(e, v, w, 0, i, j)
                == e.cov_at(i, j),
{
    let tm = spec_theta_mid(e.st(2), w, 0);
    assert(fxmul(w, 0) == 0);
    assert(fxmul(HALF as int, 0) == 0);
    lemma_fxadd_zero(e.st(2));
    assert(tm == e.st(2));
    assert(fxmul(v, 0) == 0);
    assert forall|i: int| 0 <= i < e.n() implies #[trigger] spec_predict_state(e, v, w, 0, i)
        == e.st(i) by {
        if i == 0 {
            assert(fxmul(0, crate::trig::spec_cos(tm)) == 0);
            lemma_fxadd_zero(e.st(0));
        } else if i == 1 {
            assert(fxmul(0, crate::trig::spec_sin(tm)) == 0);
            lemma_fxadd_zero(e.st(1));
        } else if i == 2 {
            lemma_fxadd_zero(e.st(2));
            lemma_normalize_identity(e.st(2));
        }
    }
    assert forall|i: int, j: int|
        0 <= i < e.n() && 0 <= j < e.n() implies #[trigger] spec_predict_cov(e, v, w, 0, i, j)
        == e.cov_at(i, j) by {
        if i < 3 && j < 3 {
            let ii = if i <= j { i } else { j };
            let jj = if i <= j { j } else { i };
            lemma_noop_prr_a(e, v, w, ii, 0);
            lemma_noop_prr_a(e, v, w, ii, 1);
            lemma_noop_prr_a(e, v, w, ii, 2);
            lemma_noop_fx(e, v, w, jj, 0);
            lemma_noop_fx(e, v, w, jj, 1);
            lemma_noop_fx(e, v, w, jj, 2);
            lemma_fxmul_zero_one(e.cov_at(ii, 0));
            lemma_fxmul_zero_one(e.cov_at(ii, 1));
            lemma_fxmul_zero_one(e.cov_at(ii, 2));
            lemma_fxadd_zero(e.cov_at(ii, jj));
            assert(fxadd(0, e.cov_at(ii, 1)) == e.cov_at(ii, 1));
            lemma_noop_noise(tm, v, w, ii, jj);
            assert(spec_prr_fpf(e, v, w, 0, ii, jj) == e.cov_at(ii, jj));
            assert(spec_predict_prr(e, v, w, 0, i, j) == e.cov_at(ii, jj));
            assert(e.cov_at(ii, jj) == e.cov_at(i, j));
        } else if i < 3 {
            lemma_noop_fx(e, v, w, i, 0);
            lemma_noop_fx(e, v, w, i, 1);
            lemma_noop_fx(e, v, w, i, 2);
            lemma_fxmul_zero_one(e.cov_at(0, j));
            lemma_fxmul_zero_one(e.cov_at(1, j));
            lemma_fxmul_zero_one(e.cov_at(2, j));
            lemma_fxadd_zero(e.cov_at(i, j));
            assert(fxadd(0, e.cov_at(1, j)) == e.cov_at(1, j));
            assert(spec_predict_cross(e, v, w, 0, i, j) == e.cov_at(i, j));
        } else if j < 3 {
            lemma_noop_fx(e, v, w, j, 0);
            lemma_noop_fx(e, v, w, j, 1);
            lemma_noop_fx(e, v, w, j, 2);
            lemma_fxmul_zero_one(e.cov_at(0, i));
            lemma_fxmul_zero_one(e.cov_at(1, i));
            lemma_fxmul_zero_one(e.cov_at(2, i));
            lemma_fxadd_zero(e.cov_at(j, i));
            assert(fxadd(0, e.cov_at(1, i)) == e.cov_at(1, i));
            assert(spec_predict_cross(e, v, w, 0, j, i) == e.cov_at(j, i));
            assert(e.cov_at(j, i) == e.cov_at(i, j));
        }
    }
}

/// Re-observing a tracked landmark exactly where it is predicted (zero
/// innovation) leaves the whole state vector unchanged by the correction.
pub proof fn lemma_zero_innovation_keeps_state(
    e: EkfSlam,
    idx: int,
    cfg: Config,
    obs_range: int,
    obs_bearing: int,
)
    requires
        e.wf(),
        3 <= idx,
        idx + 2 <= e.n(),
        spec_y0(e, idx, obs_range) == 0,
        spec_y1(e, idx, obs_bearing) == 0,
    ensures
        forall|r: int|
            0 <= r < e.n() ==> #[trigger] spec_corr_state(e, idx, cfg, obs_range, obs_bearing, r)
                == e.st(r),
{
    assert forall|r: int|
        0 <= r < e.n() implies #[trigger] spec_corr_state(e, idx, cfg, obs_range, obs_bearing, r)
        == e.st(r) by {
        reveal(spec_corr_state);
        reveal(spec_corr_delta);
        assert(fxmul(crate::ekf_slam::spec_kgain(e, idx, cfg, r, 0), 0) == 0);
        assert(fxmul(crate::ekf_slam::spec_kgain(e, idx, cfg, r, 1), 0) == 0);
        assert(spec_corr_delta(e, idx, cfg, obs_range, obs_bearing, r) == 0);
        lemma_fxadd_zero(e.st(r));
        if r == 2 {
            lemma_normalize_identity(e.st(2));
        }
    }
}


/// A landmark id moves from unseen to tracked at most once and never back:
/// `update` either keeps the registry or appends to it, and appending keeps
/// every id that was already tracked.
pub proof fn lemma_tracked_is_irreversible(
    table: Seq<(usize, usize)>,
    appended: (usize, usize),
    id: usize,
)
    requires
        spec_has_id(table, id),
    ensures
        spec_has_id(table.push(appended), id),
{
    let k = choose|k: int| 0 <= k < table.len() && (#[trigger] table[k]).0 == id;
    assert(table.push(appended)[k].0 == id);
}

} // verus!
