//! The EKF-SLAM estimator: joint robot/landmark state, covariance, and the
//! predict / update operations.
//!
//! The joint state vector holds the robot pose `x, y, heading` in its first
//! three slots and a contiguous `x, y` block for each registered landmark.
//! The covariance is a dense square matrix, stored row-major in one flat
//! vector, symmetric by construction. A registry maps landmark identifiers to
//! their block offsets in the state vector; an identifier is registered at
//! most once and its offset never changes.

use vstd::prelude::*;
use crate::fixed::{
    ONE, HALF, SCALE, PI_FIX, FIX_MIN, fxadd, fxsub, fxneg, fxabs, fxmul, fxdiv, fxdivc,
    add_fix, sub_fix, neg_fix, abs_fix, mul_fix, div_fix, divc_fix,
};
use crate::trig::{
    spec_normalize, spec_sin, spec_cos, spec_atan2, spec_isqrt, normalize_angle, sin_fix,
    cos_fix, atan2_fix, sqrt_fix,
};

verus! {

/// One range/bearing sighting of a landmark, in fixed-point scalars.
/// `bearing` is relative to the robot's current heading.
pub struct Observation {
    pub id: usize,
    pub range: i64,
    pub bearing: i64,
}

/// Sensor noise configuration: standard deviations of the range and bearing
/// measurements, as positive fixed-point scalars.
pub struct Config {
    pub sigma_range: i64,
    pub sigma_bearing: i64,
}

impl Config {
    pub open spec fn wf(self) -> bool {
        self.sigma_range > 0 && self.sigma_bearing > 0
    }
}

/// Multiplier on a control magnitude in the control-noise model (0.1).
pub const PROCESS_NOISE_COEFF: i64 = 6554;
/// Additive floor of the control-noise model (0.01), so process noise never
/// vanishes at zero speed.
pub const PROCESS_NOISE_FLOOR: i64 = 655;
/// Initial variance of each robot pose component (0.01).
pub const INITIAL_VARIANCE: i64 = 655;
/// Smallest innovation-covariance determinant accepted by a correction; a
/// smaller magnitude means degenerate geometry and the observation is skipped.
pub const DET_EPSILON: i64 = 1;

/// What `update` did with an observation.
#[derive(PartialEq, Eq, Structural, Clone, Copy, Debug)]
pub enum UpdateOutcome {
    /// The landmark id was new: it was registered and the state grown.
    Initialized,
    /// The landmark id was known: the observation was fused.
    Corrected,
    /// The observation carried a negative range: rejected, nothing mutated.
    RejectedNegativeRange,
    /// Correction geometry was degenerate: rejected, nothing mutated.
    RejectedDegenerate,
}

pub struct EkfSlam {
    /// Joint state: robot `x, y, heading`, then one `x, y` block per landmark.
    pub state: Vec<i64>,
    /// Joint covariance, row-major, side `state.len()`.
    pub covariance: Vec<i64>,
    /// Landmark id -> offset of its block in `state`, in first-sighting order.
    pub observed_landmarks: Vec<(usize, usize)>,
}

/// A row-major index built from in-range coordinates stays below `n * n`.
proof fn lemma_flat_bound(n: int, i: int, j: int)
    by (nonlinear_arith)
    requires
        0 <= i < n,
        0 <= j < n,
    ensures
        0 <= i * n + j,
        i * n + j < n * n,
{
}

/// Row-major flattening is injective.
proof fn lemma_flat_inj(n: int, a: int, b: int, i: int, j: int)
    by (nonlinear_arith)
    requires
        0 <= a < n,
        0 <= b < n,
        0 <= i < n,
        0 <= j < n,
        a * n + b == i * n + j,
    ensures
        a == i,
        b == j,
{
}

/// Whether some entry of the registry carries this landmark id.
pub open spec fn spec_has_id(table: Seq<(usize, usize)>, id: usize) -> bool {
    exists|k: int| 0 <= k < table.len() && (#[trigger] table[k]).0 == id
}

/// The state offset registered for a landmark id.
pub open spec fn spec_offset_of(table: Seq<(usize, usize)>, id: usize) -> int {
    let k = choose|k: int| 0 <= k < table.len() && (#[trigger] table[k]).0 == id;
    table[k].1 as int
}


/// The approximate heading at the middle of the tick.
pub open spec fn spec_theta_mid(th: int, w: int, dt: int) -> int {
    fxadd(th, fxmul(HALF as int, fxmul(w, dt)))
}

/// Variance of one control channel: `(0.1 * |u| + 0.01)^2`.
pub open spec fn spec_ctrl_noise(u: int) -> int {
    let s = fxadd(fxmul(PROCESS_NOISE_COEFF as int, fxabs(u)), PROCESS_NOISE_FLOOR as int);
    fxmul(s, s)
}

/// Entry `(i, k)` of the 3x3 motion-model Jacobian with respect to the robot
/// state, evaluated at the mid-tick heading.
pub open spec fn spec_fx_mat(tm: int, v: int, dt: int, i: int, k: int) -> int {
    let vdt = fxmul(v, dt);
    if i == 0 && k == 0 {
        ONE as int
    } else if i == 0 && k == 2 {
        fxneg(fxmul(vdt, spec_sin(tm)))
    } else if i == 1 && k == 1 {
        ONE as int
    } else if i == 1 && k == 2 {
        fxmul(vdt, spec_cos(tm))
    } else if i == 2 && k == 2 {
        ONE as int
    } else {
        0
    }
}

/// Entry `(i, k)` of the 3x2 motion-model Jacobian with respect to the
/// control noise.
pub open spec fn spec_fnoise_mat(tm: int, dt: int, i: int, k: int) -> int {
    if i == 0 && k == 0 {
        fxmul(spec_cos(tm), dt)
    } else if i == 1 && k == 0 {
        fxmul(spec_sin(tm), dt)
    } else if i == 2 && k == 1 {
        dt
    } else {
        0
    }
}

/// Entry `(i, k)` of the diagonal control-noise covariance.
pub open spec fn spec_nmat(v: int, w: int, i: int, k: int) -> int {
    if i == 0 && k == 0 {
        spec_ctrl_noise(v)
    } else if i == 1 && k == 1 {
        spec_ctrl_noise(w)
    } else {
        0
    }
}

/// Entry `(i, k)` of `F_x * P_rr`.
pub open spec fn spec_prr_a(e: EkfSlam, v: int, w: int, dt: int, i: int, k: int) -> int {
    let tm = spec_theta_mid(e.st(2), w, dt);
    fxadd(
        fxadd(
            fxmul(spec_fx_mat(tm, v, dt, i, 0), e.cov_at(0, k)),
            fxmul(spec_fx_mat(tm, v, dt, i, 1), e.cov_at(1, k)),
        ),
        fxmul(spec_fx_mat(tm, v, dt, i, 2), e.cov_at(2, k)),
    )
}

/// Entry `(i, j)` of `F_x * P_rr * F_x^T`.
pub open spec fn spec_prr_fpf(e: EkfSlam, v: int, w: int, dt: int, i: int, j: int) -> int {
    let tm = spec_theta_mid(e.st(2), w, dt);
    fxadd(
        fxadd(
            fxmul(spec_prr_a(e, v, w, dt, i, 0), spec_fx_mat(tm, v, dt, j, 0)),
            fxmul(spec_prr_a(e, v, w, dt, i, 1), spec_fx_mat(tm, v, dt, j, 1)),
        ),
        fxmul(spec_prr_a(e, v, w, dt, i, 2), spec_fx_mat(tm, v, dt, j, 2)),
    )
}

/// Entry `(i, k)` of `F_n * N`.
pub open spec fn spec_fnn(tm: int, v: int, w: int, dt: int, i: int, k: int) -> int {
    fxadd(
        fxmul(spec_fnoise_mat(tm, dt, i, 0), spec_nmat(v, w, 0, k)),
        fxmul(spec_fnoise_mat(tm, dt, i, 1), spec_nmat(v, w, 1, k)),
    )
}

/// Entry `(i, j)` of the additive process noise `F_n * N * F_n^T`.
pub open spec fn spec_noise_term(tm: int, v: int, w: int, dt: int, i: int, j: int) -> int {
    fxadd(
        fxmul(spec_fnn(tm, v, w, dt, i, 0), spec_fnoise_mat(tm, dt, j, 0)),
        fxmul(spec_fnn(tm, v, w, dt, i, 1), spec_fnoise_mat(tm, dt, j, 1)),
    )
}

/// Entry `(i, j)` of the predicted robot covariance block. Only the upper
/// triangle is computed; the lower mirrors it, so the block is symmetric.
pub open spec fn spec_predict_prr(e: EkfSlam, v: int, w: int, dt: int, i: int, j: int) -> int {
    let tm = spec_theta_mid(e.st(2), w, dt);
    let ii = if i <= j { i } else { j };
    let jj = if i <= j { j } else { i };
    fxadd(spec_prr_fpf(e, v, w, dt, ii, jj), spec_noise_term(tm, v, w, dt, ii, jj))
}

/// Entry `(i, c)` of the predicted robot-to-map cross covariance,
/// `F_x * P_rm`, for a robot row `i < 3` and a map column `c >= 3`.
pub open spec fn spec_predict_cross(e: EkfSlam, v: int, w: int, dt: int, i: int, c: int) -> int {
    let tm = spec_theta_mid(e.st(2), w, dt);
    fxadd(
        fxadd(
            fxmul(spec_fx_mat(tm, v, dt, i, 0), e.cov_at(0, c)),
            fxmul(spec_fx_mat(tm, v, dt, i, 1), e.cov_at(1, c)),
        ),
        fxmul(spec_fx_mat(tm, v, dt, i, 2), e.cov_at(2, c)),
    )
}

/// The whole covariance after a prediction: robot block propagated through
/// the motion Jacobian plus process noise, cross blocks propagated through
/// the Jacobian alone (both triangles alike), map blocks untouched.
pub open spec fn spec_predict_cov(e: EkfSlam, v: int, w: int, dt: int, i: int, j: int) -> int {
    if i < 3 && j < 3 {
        spec_predict_prr(e, v, w, dt, i, j)
    } else if i < 3 {
        spec_predict_cross(e, v, w, dt, i, j)
    } else if j < 3 {
        spec_predict_cross(e, v, w, dt, j, i)
    } else {
        e.cov_at(i, j)
    }
}

/// The state after a prediction: the pose advanced along the mid-tick
/// heading, the heading wrapped, landmark entries untouched.
pub open spec fn spec_predict_state(e: EkfSlam, v: int, w: int, dt: int, i: int) -> int {
    let tm = spec_theta_mid(e.st(2), w, dt);
    let vdt = fxmul(v, dt);
    if i == 0 {
        fxadd(e.st(0), fxmul(vdt, spec_cos(tm)))
    } else if i == 1 {
        fxadd(e.st(1), fxmul(vdt, spec_sin(tm)))
    } else if i == 2 {
        spec_normalize(fxadd(e.st(2), fxmul(w, dt)))
    } else {
        e.st(i)
    }
}


/// Entry `(i, k)` of the 2x3 Jacobian of the absolute landmark position with
/// respect to the robot state, at absolute angle `aa`.
pub open spec fn spec_gr_mat(aa: int, range: int, i: int, k: int) -> int {
    if i == 0 && k == 0 {
        ONE as int
    } else if i == 0 && k == 2 {
        fxneg(fxmul(range, spec_sin(aa)))
    } else if i == 1 && k == 1 {
        ONE as int
    } else if i == 1 && k == 2 {
        fxmul(range, spec_cos(aa))
    } else {
        0
    }
}

/// Entry `(i, k)` of the 2x2 Jacobian of the absolute landmark position with
/// respect to the observation `(range, bearing)`.
pub open spec fn spec_gy_mat(aa: int, range: int, i: int, k: int) -> int {
    if i == 0 && k == 0 {
        spec_cos(aa)
    } else if i == 0 && k == 1 {
        fxneg(fxmul(range, spec_sin(aa)))
    } else if i == 1 && k == 0 {
        spec_sin(aa)
    } else {
        fxmul(range, spec_cos(aa))
    }
}

/// Entry `(i, k)` of the diagonal sensor-noise covariance.
pub open spec fn spec_rmat(cfg: Config, i: int, k: int) -> int {
    if i == 0 && k == 0 {
        fxmul(cfg.sigma_range as int, cfg.sigma_range as int)
    } else if i == 1 && k == 1 {
        fxmul(cfg.sigma_bearing as int, cfg.sigma_bearing as int)
    } else {
        0
    }
}

/// Entry `(i, k)` of `G_r * P_rr`.
pub open spec fn spec_gr_p(e: EkfSlam, aa: int, range: int, i: int, k: int) -> int {
    fxadd(
        fxadd(
            fxmul(spec_gr_mat(aa, range, i, 0), e.cov_at(0, k)),
            fxmul(spec_gr_mat(aa, range, i, 1), e.cov_at(1, k)),
        ),
        fxmul(spec_gr_mat(aa, range, i, 2), e.cov_at(2, k)),
    )
}

/// Entry `(i, j)` of `G_r * P_rr * G_r^T`.
pub open spec fn spec_grpgr(e: EkfSlam, aa: int, range: int, i: int, j: int) -> int {
    fxadd(
        fxadd(
            fxmul(spec_gr_p(e, aa, range, i, 0), spec_gr_mat(aa, range, j, 0)),
            fxmul(spec_gr_p(e, aa, range, i, 1), spec_gr_mat(aa, range, j, 1)),
        ),
        fxmul(spec_gr_p(e, aa, range, i, 2), spec_gr_mat(aa, range, j, 2)),
    )
}

/// Entry `(i, k)` of `G_y * R`.
pub open spec fn spec_gy_r(cfg: Config, aa: int, range: int, i: int, k: int) -> int {
    fxadd(
        fxmul(spec_gy_mat(aa, range, i, 0), spec_rmat(cfg, 0, k)),
        fxmul(spec_gy_mat(aa, range, i, 1), spec_rmat(cfg, 1, k)),
    )
}

/// Entry `(i, j)` of `G_y * R * G_y^T`.
pub open spec fn spec_gyrgy(cfg: Config, aa: int, range: int, i: int, j: int) -> int {
    fxadd(
        fxmul(spec_gy_r(cfg, aa, range, i, 0), spec_gy_mat(aa, range, j, 0)),
        fxmul(spec_gy_r(cfg, aa, range, i, 1), spec_gy_mat(aa, range, j, 1)),
    )
}

/// Entry `(i, j)` of the new landmark's marginal covariance
/// `G_r * P_rr * G_r^T + G_y * R * G_y^T`, upper triangle mirrored.
pub open spec fn spec_init_pll(e: EkfSlam, cfg: Config, aa: int, range: int, i: int, j: int) -> int {
    let ii = if i <= j { i } else { j };
    let jj = if i <= j { j } else { i };
    fxadd(spec_grpgr(e, aa, range, ii, jj), spec_gyrgy(cfg, aa, range, ii, jj))
}

/// Entry `(i, c)` of the new landmark's cross covariance with the prior
/// state, `G_r * P_rx`, for a landmark row `i < 2` and prior column `c`.
pub open spec fn spec_init_plx(e: EkfSlam, aa: int, range: int, i: int, c: int) -> int {
    fxadd(
        fxadd(
            fxmul(spec_gr_mat(aa, range, i, 0), e.cov_at(0, c)),
            fxmul(spec_gr_mat(aa, range, i, 1), e.cov_at(1, c)),
        ),
        fxmul(spec_gr_mat(aa, range, i, 2), e.cov_at(2, c)),
    )
}

/// The grown covariance after registering a landmark: the prior block is
/// kept, the two new rows and columns carry the cross covariance, the new
/// diagonal block the marginal covariance.
pub open spec fn spec_init_cov(e: EkfSlam, range: int, bearing: int, cfg: Config, a: int, b: int) -> int {
    let n = e.n();
    let aa = fxadd(e.st(2), bearing);
    if a < n && b < n {
        e.cov_at(a, b)
    } else if b < n {
        spec_init_plx(e, aa, range, a - n, b)
    } else if a < n {
        spec_init_plx(e, aa, range, b - n, a)
    } else {
        spec_init_pll(e, cfg, aa, range, a - n, b - n)
    }
}


/// Easting from the robot to the landmark block at `idx`.
#[verifier::opaque]
pub open spec fn spec_corr_dx(e: EkfSlam, idx: int) -> int {
    fxsub(e.st(idx), e.st(0))
}

/// Northing from the robot to the landmark block at `idx`.
#[verifier::opaque]
pub open spec fn spec_corr_dy(e: EkfSlam, idx: int) -> int {
    fxsub(e.st(idx + 1), e.st(1))
}

/// Squared distance from the robot to the landmark block at `idx`.
#[verifier::opaque]
pub open spec fn spec_corr_d2(e: EkfSlam, idx: int) -> int {
    fxadd(
        fxmul(spec_corr_dx(e, idx), spec_corr_dx(e, idx)),
        fxmul(spec_corr_dy(e, idx), spec_corr_dy(e, idx)),
    )
}

/// The range under which the tracked landmark is predicted to be seen.
#[verifier::opaque]
pub open spec fn spec_corr_rhat(e: EkfSlam, idx: int) -> int {
    e.spec_abs_to_rel(e.st(idx), e.st(idx + 1)).0
}

/// The bearing under which the tracked landmark is predicted to be seen.
#[verifier::opaque]
pub open spec fn spec_corr_bhat(e: EkfSlam, idx: int) -> int {
    e.spec_abs_to_rel(e.st(idx), e.st(idx + 1)).1
}

/// Coefficient `(r, t)` of the observation Jacobian over its active columns:
/// partial derivatives of range (row 0) and bearing (row 1) with respect to
/// robot `x, y, heading` and the landmark's `x, y`.
#[verifier::opaque]
pub open spec fn spec_h(e: EkfSlam, idx: int, r: int, t: int) -> int {
    let dx = spec_corr_dx(e, idx);
    let dy = spec_corr_dy(e, idx);
    let d2 = spec_corr_d2(e, idx);
    let rh = spec_corr_rhat(e, idx);
    if r == 0 {
        if t == 0 {
            fxneg(fxdiv(dx, rh))
        } else if t == 1 {
            fxneg(fxdiv(dy, rh))
        } else if t == 2 {
            0
        } else if t == 3 {
            fxdiv(dx, rh)
        } else {
            fxdiv(dy, rh)
        }
    } else {
        if t == 0 {
            fxdiv(dy, d2)
        } else if t == 1 {
            fxneg(fxdiv(dx, d2))
        } else if t == 2 {
            fxneg(ONE as int)
        } else if t == 3 {
            fxneg(fxdiv(dy, d2))
        } else {
            fxdiv(dx, d2)
        }
    }
}

/// Entry `(r, c)` of `H * P` over the active rows.
#[verifier::opaque]
pub open spec fn spec_hp(e: EkfSlam, idx: int, r: int, c: int) -> int {
    fxadd(
        fxadd(
            fxadd(
                fxadd(
                    fxmul(spec_h(e, idx, r, 0), e.cov_at(0, c)),
                    fxmul(spec_h(e, idx, r, 1), e.cov_at(1, c)),
                ),
                fxmul(spec_h(e, idx, r, 2), e.cov_at(2, c)),
            ),
            fxmul(spec_h(e, idx, r, 3), e.cov_at(idx, c)),
        ),
        fxmul(spec_h(e, idx, r, 4), e.cov_at(idx + 1, c)),
    )
}

/// Entry `(r0, r1)` of `H * P * H^T`.
#[verifier::opaque]
pub open spec fn spec_hph(e: EkfSlam, idx: int, r0: int, r1: int) -> int {
    fxadd(
        fxadd(
            fxadd(
                fxadd(
                    fxmul(spec_hp(e, idx, r0, 0), spec_h(e, idx, r1, 0)),
                    fxmul(spec_hp(e, idx, r0, 1), spec_h(e, idx, r1, 1)),
                ),
                fxmul(spec_hp(e, idx, r0, 2), spec_h(e, idx, r1, 2)),
            ),
            fxmul(spec_hp(e, idx, r0, idx), spec_h(e, idx, r1, 3)),
        ),
        fxmul(spec_hp(e, idx, r0, idx + 1), spec_h(e, idx, r1, 4)),
    )
}

/// Innovation covariance `S = H * P * H^T + R`, range-range entry.
#[verifier::opaque]
pub open spec fn spec_s00(e: EkfSlam, idx: int, cfg: Config) -> int {
    fxadd(spec_hph(e, idx, 0, 0), fxmul(cfg.sigma_range as int, cfg.sigma_range as int))
}

/// Innovation covariance, off-diagonal entry.
#[verifier::opaque]
pub open spec fn spec_s01(e: EkfSlam, idx: int) -> int {
    spec_hph(e, idx, 0, 1)
}

/// Innovation covariance, bearing-bearing entry.
#[verifier::opaque]
pub open spec fn spec_s11(e: EkfSlam, idx: int, cfg: Config) -> int {
    fxadd(spec_hph(e, idx, 1, 1), fxmul(cfg.sigma_bearing as int, cfg.sigma_bearing as int))
}

/// Determinant of the 2x2 innovation covariance.
#[verifier::opaque]
pub open spec fn spec_corr_det(e: EkfSlam, idx: int, cfg: Config) -> int {
    fxsub(
        fxmul(spec_s00(e, idx, cfg), spec_s11(e, idx, cfg)),
        fxmul(spec_s01(e, idx), spec_s01(e, idx)),
    )
}

/// Whether the correction geometry is degenerate (zero predicted range or a
/// near-singular innovation covariance); such an observation is skipped.
#[verifier::opaque]
pub open spec fn spec_corr_degenerate(e: EkfSlam, idx: int, cfg: Config) -> bool {
    spec_corr_rhat(e, idx) == 0 || spec_corr_d2(e, idx) == 0 || fxabs(
        spec_corr_det(e, idx, cfg),
    ) < DET_EPSILON as int
}

/// Entry `(0,0)` of the closed-form inverse of `S`.
#[verifier::opaque]
pub open spec fn spec_i00(e: EkfSlam, idx: int, cfg: Config) -> int {
    fxdiv(spec_s11(e, idx, cfg), spec_corr_det(e, idx, cfg))
}

/// Off-diagonal entry of the inverse of `S`.
#[verifier::opaque]
pub open spec fn spec_i01(e: EkfSlam, idx: int, cfg: Config) -> int {
    fxneg(fxdiv(spec_s01(e, idx), spec_corr_det(e, idx, cfg)))
}

/// Entry `(1,1)` of the inverse of `S`.
#[verifier::opaque]
pub open spec fn spec_i11(e: EkfSlam, idx: int, cfg: Config) -> int {
    fxdiv(spec_s00(e, idx, cfg), spec_corr_det(e, idx, cfg))
}

/// Entry `(r, k)` of `P * H^T`.
#[verifier::opaque]
pub open spec fn spec_pht(e: EkfSlam, idx: int, r: int, k: int) -> int {
    fxadd(
        fxadd(
            fxadd(
                fxadd(
                    fxmul(e.cov_at(r, 0), spec_h(e, idx, k, 0)),
                    fxmul(e.cov_at(r, 1), spec_h(e, idx, k, 1)),
                ),
                fxmul(e.cov_at(r, 2), spec_h(e, idx, k, 2)),
            ),
            fxmul(e.cov_at(r, idx), spec_h(e, idx, k, 3)),
        ),
        fxmul(e.cov_at(r, idx + 1), spec_h(e, idx, k, 4)),
    )
}

/// Entry `(r, k)` of the Kalman gain `K = P * H^T * S^{-1}`.
#[verifier::opaque]
pub open spec fn spec_kgain(e: EkfSlam, idx: int, cfg: Config, r: int, k: int) -> int {
    if k == 0 {
        fxadd(
            fxmul(spec_pht(e, idx, r, 0), spec_i00(e, idx, cfg)),
            fxmul(spec_pht(e, idx, r, 1), spec_i01(e, idx, cfg)),
        )
    } else {
        fxadd(
            fxmul(spec_pht(e, idx, r, 0), spec_i01(e, idx, cfg)),
            fxmul(spec_pht(e, idx, r, 1), spec_i11(e, idx, cfg)),
        )
    }
}

/// Range component of the innovation.
#[verifier::opaque]
pub open spec fn spec_y0(e: EkfSlam, idx: int, obs_range: int) -> int {
    fxsub(obs_range, spec_corr_rhat(e, idx))
}

/// Bearing component of the innovation, wrapped.
#[verifier::opaque]
pub open spec fn spec_y1(e: EkfSlam, idx: int, obs_bearing: int) -> int {
    spec_normalize(fxsub(obs_bearing, spec_corr_bhat(e, idx)))
}

/// The gain applied to the innovation at state row `r`.
#[verifier::opaque]
pub open spec fn spec_corr_delta(
    e: EkfSlam,
    idx: int,
    cfg: Config,
    obs_range: int,
    obs_bearing: int,
    r: int,
) -> int {
    fxadd(
        fxmul(spec_kgain(e, idx, cfg, r, 0), spec_y0(e, idx, obs_range)),
        fxmul(spec_kgain(e, idx, cfg, r, 1), spec_y1(e, idx, obs_bearing)),
    )
}

/// The corrected state: `state + K * innovation`, heading re-wrapped.
#[verifier::opaque]
pub open spec fn spec_corr_state(
    e: EkfSlam,
    idx: int,
    cfg: Config,
    obs_range: int,
    obs_bearing: int,
    r: int,
) -> int {
    let shifted = fxadd(e.st(r), spec_corr_delta(e, idx, cfg, obs_range, obs_bearing, r));
    if r == 2 {
        spec_normalize(shifted)
    } else {
        shifted
    }
}

/// Coefficient `(r, t)` of `K * H` over the active columns.
#[verifier::opaque]
pub open spec fn spec_kh(e: EkfSlam, idx: int, cfg: Config, r: int, t: int) -> int {
    fxadd(
        fxmul(spec_kgain(e, idx, cfg, r, 0), spec_h(e, idx, 0, t)),
        fxmul(spec_kgain(e, idx, cfg, r, 1), spec_h(e, idx, 1, t)),
    )
}

/// Entry `(r, c)` of `(I - K * H) * P`, computed as `P - (K * H) * P`.
#[verifier::opaque]
pub open spec fn spec_corr_m(e: EkfSlam, idx: int, cfg: Config, r: int, c: int) -> int {
    fxsub(
        e.cov_at(r, c),
        fxadd(
            fxadd(
                fxadd(
                    fxadd(
                        fxmul(spec_kh(e, idx, cfg, r, 0), e.cov_at(0, c)),
                        fxmul(spec_kh(e, idx, cfg, r, 1), e.cov_at(1, c)),
                    ),
                    fxmul(spec_kh(e, idx, cfg, r, 2), e.cov_at(2, c)),
                ),
                fxmul(spec_kh(e, idx, cfg, r, 3), e.cov_at(idx, c)),
            ),
            fxmul(spec_kh(e, idx, cfg, r, 4), e.cov_at(idx + 1, c)),
        ),
    )
}

/// The corrected covariance: `(I - K * H) * P`, symmetrized as
/// `(M + M^T) / 2` to keep the symmetry invariant exact.
#[verifier::opaque]
pub open spec fn spec_corr_cov(e: EkfSlam, idx: int, cfg: Config, i: int, j: int) -> int {
    fxdivc(fxadd(spec_corr_m(e, idx, cfg, i, j), spec_corr_m(e, idx, cfg, j, i)), 2)
}


/// What `update` does with an observation: a negative range is rejected at
/// the boundary; an unknown id is initialized; a known id is corrected,
/// unless the correction geometry is degenerate, in which case the
/// observation is skipped.
pub open spec fn spec_update_outcome(e: EkfSlam, obs: Observation, cfg: Config) -> UpdateOutcome {
    if obs.range < 0 {
        UpdateOutcome::RejectedNegativeRange
    } else if !spec_has_id(e.observed_landmarks@, obs.id) {
        UpdateOutcome::Initialized
    } else if spec_corr_degenerate(e, spec_offset_of(e.observed_landmarks@, obs.id), cfg) {
        UpdateOutcome::RejectedDegenerate
    } else {
        UpdateOutcome::Corrected
    }
}

impl EkfSlam {
    /// Side of the joint state: `3 + 2 * landmarks`.
    pub open spec fn n(self) -> int {
        self.state@.len() as int
    }

    /// A state entry, as an unbounded integer.
    pub open spec fn st(self, i: int) -> int {
        self.state@[i] as int
    }

    /// A covariance entry, as an unbounded integer.
    pub open spec fn cov_at(self, i: int, j: int) -> int {
        self.covariance@[i * self.n() + j] as int
    }

    /// Structural well-formedness: dimensions agree, the covariance is
    /// symmetric, the heading is a wrapped angle, the registry assigns the
    /// offsets `3, 5, 7, ...` in order with unique ids, and every stored
    /// scalar is representable (so that negation never overflows).
    pub open spec fn wf(self) -> bool {
        let n = self.n();
        &&& n == 3 + 2 * self.observed_landmarks@.len()
        &&& self.covariance@.len() == n * n
        &&& forall|i: int, j: int|
            0 <= i < n && 0 <= j < n ==> #[trigger] self.cov_at(i, j) == self.cov_at(j, i)
        &&& -(PI_FIX as int) < self.st(2) <= PI_FIX as int
        &&& forall|k: int|
            0 <= k < self.observed_landmarks@.len() ==> (#[trigger] self.observed_landmarks@[k]).1
                == 3 + 2 * k
        &&& forall|k1: int, k2: int|
            0 <= k1 < self.observed_landmarks@.len() && 0 <= k2
                < self.observed_landmarks@.len() && k1 != k2 ==> (
            #[trigger] self.observed_landmarks@[k1]).0 != (
            #[trigger] self.observed_landmarks@[k2]).0
        &&& forall|i: int| 0 <= i < n ==> #[trigger] self.st(i) >= FIX_MIN as int
        &&& forall|i: int, j: int|
            0 <= i < n && 0 <= j < n ==> #[trigger] self.cov_at(i, j) >= FIX_MIN as int
    }

    /// Read one covariance entry.
    fn cov_get(&self, i: usize, j: usize) -> (r: i64)
        requires
            self.covariance@.len() == self.n() * self.n(),
            i < self.n(),
            j < self.n(),
        ensures
            r as int == self.cov_at(i as int, j as int),
    {
        let n = self.state.len();
        let total = self.covariance.len();
        proof {
            lemma_flat_bound(n as int, i as int, j as int);
        }
        self.covariance[i * n + j]
    }

    /// Write one covariance entry; every other entry is untouched.
    fn cov_set(&mut self, i: usize, j: usize, v: i64)
        requires
            old(self).covariance@.len() == old(self).n() * old(self).n(),
            i < old(self).n(),
            j < old(self).n(),
        ensures
            final(self).state@ == old(self).state@,
            final(self).observed_landmarks@ == old(self).observed_landmarks@,
            final(self).covariance@.len() == old(self).covariance@.len(),
            forall|a: int, b: int|
                0 <= a < old(self).n() && 0 <= b < old(self).n() ==> #[trigger] final(
                self).cov_at(a, b) == (if a == i as int && b == j as int {
                    v as int
                } else {
                    old(self).cov_at(a, b)
                }),
    {
        let n = self.state.len();
        let total = self.covariance.len();
        proof {
            lemma_flat_bound(n as int, i as int, j as int);
        }
        let idx = i * n + j;
        self.covariance.set(idx, v);
        proof {
            assert forall|a: int, b: int|
                0 <= a < old(self).n() && 0 <= b < old(self).n() && !(a == i as int && b
                    == j as int) implies #[trigger] self.cov_at(a, b) == old(self).cov_at(
                a,
                b,
            ) by {
                lemma_flat_bound(n as int, a, b);
                if a * (n as int) + b == idx as int {
                    lemma_flat_inj(n as int, a, b, i as int, j as int);
                }
            }
        }
    }

    /// Look a landmark id up in the registry.
    fn find_landmark(&self, id: usize) -> (r: Option<usize>)
        ensures
            match r {
                Some(off) => exists|k: int|
                    0 <= k < self.observed_landmarks@.len() && (
                    #[trigger] self.observed_landmarks@[k]).0 == id
                        && self.observed_landmarks@[k].1 == off,
                None => !spec_has_id(self.observed_landmarks@, id),
            },
    {
        let mut k: usize = 0;
        while k < self.observed_landmarks.len()
            invariant
                k <= self.observed_landmarks@.len(),
                forall|t: int|
                    0 <= t < k ==> (#[trigger] self.observed_landmarks@[t]).0 != id,
            decreases self.observed_landmarks@.len() - k,
        {
            let entry = self.observed_landmarks[k];
            if entry.0 == id {
                return Some(entry.1);
            }
            k += 1;
        }
        None
    }

    /// A fresh estimator: robot at the origin with heading zero, no
    /// landmarks, covariance `INITIAL_VARIANCE` times the identity.
    pub fn new() -> (e: EkfSlam)
        ensures
            e.wf(),
            e.state@.len() == 3,
            e.st(0) == 0 && e.st(1) == 0 && e.st(2) == 0,
            e.observed_landmarks@.len() == 0,
            forall|i: int, j: int|
                0 <= i < 3 && 0 <= j < 3 ==> #[trigger] e.cov_at(i, j) == (if i == j {
                    INITIAL_VARIANCE as int
                } else {
                    0int
                }),
    {
        let mut state: Vec<i64> = Vec::new();
        state.push(0);
        state.push(0);
        state.push(0);
        let mut covariance: Vec<i64> = Vec::new();
        covariance.push(INITIAL_VARIANCE);
        covariance.push(0);
        covariance.push(0);
        covariance.push(0);
        covariance.push(INITIAL_VARIANCE);
        covariance.push(0);
        covariance.push(0);
        covariance.push(0);
        covariance.push(INITIAL_VARIANCE);
        let e = EkfSlam { state, covariance, observed_landmarks: Vec::new() };
        proof {
            assert forall|i: int, j: int| 0 <= i < 3 && 0 <= j < 3 implies #[trigger] e.cov_at(
                i,
                j,
            ) == (if i == j {
                INITIAL_VARIANCE as int
            } else {
                0int
            }) by {
                assert(e.n() == 3);
                assert(0 <= i * 3 + j < 9) by (nonlinear_arith)
                    requires 0 <= i < 3 && 0 <= j < 3;
            }
        }
        e
    }

    /// The absolute position a relative `(range, bearing)` sighting points
    /// at, from the current robot pose estimate.
    pub open spec fn spec_rel_to_abs(self, range: int, bearing: int) -> (int, int) {
        let absolute_angle = fxadd(self.st(2), bearing);
        (
            fxadd(self.st(0), fxmul(range, spec_cos(absolute_angle))),
            fxadd(self.st(1), fxmul(range, spec_sin(absolute_angle))),
        )
    }

    /// Convert a relative landmark sighting to absolute coordinates using the
    /// current robot pose estimate.
    pub fn relative_to_absolute(&self, range: i64, bearing: i64) -> (r: (i64, i64))
        requires
            self.wf(),
        ensures
            (r.0 as int, r.1 as int) == self.spec_rel_to_abs(range as int, bearing as int),
    {
        let absolute_angle = add_fix(self.state[2], bearing);
        let x = add_fix(self.state[0], mul_fix(range, cos_fix(absolute_angle)));
        let y = add_fix(self.state[1], mul_fix(range, sin_fix(absolute_angle)));
        (x, y)
    }

    /// The `(range, bearing)` under which an absolute position is seen from
    /// the current robot pose estimate.
    pub open spec fn spec_abs_to_rel(self, x: int, y: int) -> (int, int) {
        let dx = fxsub(x, self.st(0));
        let dy = fxsub(y, self.st(1));
        let d2 = fxadd(fxmul(dx, dx), fxmul(dy, dy));
        (
            spec_isqrt(d2 * SCALE as int),
            spec_normalize(fxsub(spec_atan2(dy, dx), self.st(2))),
        )
    }

    /// Convert an absolute position to the relative `(range, bearing)` under
    /// which the current robot pose estimate sees it. The bearing is wrapped
    /// into `(-PI_FIX, PI_FIX]`.
    pub fn absolute_to_relative(&self, x: i64, y: i64) -> (r: (i64, i64))
        requires
            self.wf(),
        ensures
            (r.0 as int, r.1 as int) == self.spec_abs_to_rel(x as int, y as int),
            r.0 >= 0,
    {
        let dx = sub_fix(x, self.state[0]);
        let dy = sub_fix(y, self.state[1]);
        let dx2 = mul_fix(dx, dx);
        let dy2 = mul_fix(dy, dy);
        proof {
            crate::fixed::lemma_fxmul_square_nonneg(dx as int);
            crate::fixed::lemma_fxmul_square_nonneg(dy as int);
        }
        let d2 = add_fix(dx2, dy2);
        let range = sqrt_fix(d2);
        let bearing = normalize_angle(sub_fix(atan2_fix(dy, dx), self.state[2]));
        (range, bearing)
    }


    /// Fold one observation into the estimate. Dispatches on the landmark
    /// id: a new id is registered (Initialized), a known id is fused
    /// (Corrected). A negative range is rejected before any dispatch; a
    /// degenerate correction is skipped. Rejected observations mutate
    /// nothing.
    pub fn update(&mut self, observation: &Observation, cfg: &Config) -> (outcome: UpdateOutcome)
        requires
            old(self).wf(),
            cfg.wf(),
            (old(self).n() + 2) * (old(self).n() + 2) <= usize::MAX as int,
        ensures
            final(self).wf(),
            outcome == spec_update_outcome(*old(self), *observation, *cfg),
            observation.range < 0 ==> final(self).state@ == old(self).state@ && final(self).covariance@ == old(self).covariance@ && final(self).observed_landmarks@ == old(self).observed_landmarks@,
            outcome == UpdateOutcome::RejectedDegenerate ==> final(self).state@ == old(self).state@ && final(self).covariance@ == old(self).covariance@ && final(self).observed_landmarks@ == old(self).observed_landmarks@,
            observation.range >= 0 && !spec_has_id(old(self).observed_landmarks@, observation.id)
                ==> ({
                &&& final(self).observed_landmarks@ == old(self).observed_landmarks@.push(
                    (observation.id, old(self).state@.len() as usize),
                )
                &&& final(self).state@.len() == old(self).state@.len() + 2
                &&& (forall|i: int|
                    0 <= i < old(self).n() ==> #[trigger] final(self).st(i) == old(self).st(i))
                &&& final(self).st(old(self).n()) == old(self).spec_rel_to_abs(
                    observation.range as int,
                    observation.bearing as int,
                ).0
                &&& final(self).st(old(self).n() + 1) == old(self).spec_rel_to_abs(
                    observation.range as int,
                    observation.bearing as int,
                ).1
                &&& (forall|a: int, b: int|
                    0 <= a < old(self).n() + 2 && 0 <= b < old(self).n() + 2
                        ==> #[trigger] final(self).cov_at(a, b) == spec_init_cov(
                        *old(self),
                        observation.range as int,
                        observation.bearing as int,
                        *cfg,
                        a,
                        b,
                    ))
            }),
            observation.range >= 0 && spec_has_id(old(self).observed_landmarks@, observation.id)
                ==> ({
                let landmark_offset = spec_offset_of(
                    old(self).observed_landmarks@,
                    observation.id,
                );
                &&& final(self).observed_landmarks@ == old(self).observed_landmarks@
                &&& final(self).state@.len() == old(self).state@.len()
                &&& (!spec_corr_degenerate(*old(self), landmark_offset, *cfg) ==> (forall|r: int|
                    0 <= r < old(self).n() ==> #[trigger] final(self).st(r) == spec_corr_state(
                        *old(self),
                        landmark_offset,
                        *cfg,
                        observation.range as int,
                        observation.bearing as int,
                        r,
                    )))
                &&& (!spec_corr_degenerate(*old(self), landmark_offset, *cfg) ==> (forall|
                    i: int,
                    j: int,
                |
                    0 <= i < old(self).n() && 0 <= j < old(self).n() ==> #[trigger] final(
                    self).cov_at(i, j) == spec_corr_cov(*old(self), landmark_offset, *cfg, i, j)))
            }),
    {
        if observation.range < 0 {
            return UpdateOutcome::RejectedNegativeRange;
        }
        let found = self.find_landmark(observation.id);
        match found {
            Some(landmark_index) => {
                proof {
                    let table = self.observed_landmarks@;
                    let k1 = choose|k: int|
                        0 <= k < table.len() && (#[trigger] table[k]).0 == observation.id
                            && table[k].1 == landmark_index;
                    assert(spec_has_id(table, observation.id));
                    let k2 = choose|k: int|
                        0 <= k < table.len() && (#[trigger] table[k]).0 == observation.id;
                    assert(k1 == k2);
                    assert(spec_offset_of(table, observation.id) == landmark_index as int);
                    assert(table[k1].1 == 3 + 2 * k1);
                    assert(3 <= landmark_index as int);
                    assert(landmark_index as int + 2 <= self.n());
                }
                let rejected = self.correct_landmark(observation, cfg, landmark_index);
                if rejected {
                    UpdateOutcome::RejectedDegenerate
                } else {
                    UpdateOutcome::Corrected
                }
            },
            None => {
                self.initialize_landmark(observation, cfg);
                UpdateOutcome::Initialized
            },
        }
    }

    /// Fold `h0..h4` against the active rows of covariance column `c`:
    /// the sum of `h_t * P[col_t, c]` over the five active columns.
    fn row_comb(&self, h0: i64, h1: i64, h2: i64, h3: i64, h4: i64, idx: usize, c: usize) -> (r:
        i64)
        requires
            self.covariance@.len() == self.n() * self.n(),
            3 <= idx as int,
            idx as int + 2 <= self.n(),
            c < self.n(),
        ensures
            r as int == fxadd(
                fxadd(
                    fxadd(
                        fxadd(
                            fxmul(h0 as int, self.cov_at(0, c as int)),
                            fxmul(h1 as int, self.cov_at(1, c as int)),
                        ),
                        fxmul(h2 as int, self.cov_at(2, c as int)),
                    ),
                    fxmul(h3 as int, self.cov_at(idx as int, c as int)),
                ),
                fxmul(h4 as int, self.cov_at(idx as int + 1, c as int)),
            ),
    {
        let n = self.state.len();
        add_fix(
            add_fix(
                add_fix(
                    add_fix(
                        mul_fix(h0, self.cov_get(0, c)),
                        mul_fix(h1, self.cov_get(1, c)),
                    ),
                    mul_fix(h2, self.cov_get(2, c)),
                ),
                mul_fix(h3, self.cov_get(idx, c)),
            ),
            mul_fix(h4, self.cov_get(idx + 1, c)),
        )
    }

    /// Fold covariance row `r` against `h0..h4` over the active columns:
    /// the sum of `P[r, col_t] * h_t`.
    fn col_comb(&self, r: usize, idx: usize, h0: i64, h1: i64, h2: i64, h3: i64, h4: i64) -> (v:
        i64)
        requires
            self.covariance@.len() == self.n() * self.n(),
            3 <= idx as int,
            idx as int + 2 <= self.n(),
            r < self.n(),
        ensures
            v as int == fxadd(
                fxadd(
                    fxadd(
                        fxadd(
                            fxmul(self.cov_at(r as int, 0), h0 as int),
                            fxmul(self.cov_at(r as int, 1), h1 as int),
                        ),
                        fxmul(self.cov_at(r as int, 2), h2 as int),
                    ),
                    fxmul(self.cov_at(r as int, idx as int), h3 as int),
                ),
                fxmul(self.cov_at(r as int, idx as int + 1), h4 as int),
            ),
    {
        let n = self.state.len();
        add_fix(
            add_fix(
                add_fix(
                    add_fix(
                        mul_fix(self.cov_get(r, 0), h0),
                        mul_fix(self.cov_get(r, 1), h1),
                    ),
                    mul_fix(self.cov_get(r, 2), h2),
                ),
                mul_fix(self.cov_get(r, idx), h3),
            ),
            mul_fix(self.cov_get(r, idx + 1), h4),
        )
    }

    /// Fuse a repeat observation of the landmark tracked at offset `idx` via
    /// the standard EKF correction. Returns `true` when the observation was
    /// rejected because the geometry is degenerate (zero predicted range or a
    /// near-singular innovation covariance); in that case nothing is mutated.
    #[verifier::loop_isolation(false)]
    #[verifier::rlimit(100)]
    #[verifier::spinoff_prover]
    fn correct_landmark(&mut self, observation: &Observation, cfg: &Config, idx: usize) -> (rejected:
        bool)
        requires
            old(self).wf(),
            cfg.wf(),
            3 <= idx as int,
            idx as int + 2 <= old(self).n(),
        ensures
            final(self).wf(),
            rejected == spec_corr_degenerate(*old(self), idx as int, *cfg),
            final(self).observed_landmarks@ == old(self).observed_landmarks@,
            final(self).state@.len() == old(self).state@.len(),
            rejected ==> final(self).state@ == old(self).state@ && final(self).covariance@ == old(self).covariance@,
            !rejected ==> forall|r: int|
                0 <= r < old(self).n() ==> #[trigger] final(self).st(r) == spec_corr_state(
                    *old(self),
                    idx as int,
                    *cfg,
                    observation.range as int,
                    observation.bearing as int,
                    r,
                ),
            !rejected ==> forall|i: int, j: int|
                0 <= i < old(self).n() && 0 <= j < old(self).n() ==> #[trigger] final(
                self).cov_at(i, j) == spec_corr_cov(*old(self), idx as int, *cfg, i, j),
    {
        let ghost e0 = *old(self);
        let ghost ix = idx as int;
        let n = self.state.len();

        // predicted observation of the tracked landmark
        let lx = self.state[idx];
        let ly = self.state[idx + 1];
        let rb = self.absolute_to_relative(lx, ly);
        let rhat = rb.0;
        let bhat = rb.1;
        proof {
            assert(rhat as int == spec_corr_rhat(e0, ix)) by {
                reveal(spec_corr_rhat);
            }
            assert(bhat as int == spec_corr_bhat(e0, ix)) by {
                reveal(spec_corr_bhat);
            }
        }
        if rhat == 0 {
            proof {
                assert(spec_corr_degenerate(e0, ix, *cfg)) by {
                    reveal(spec_corr_degenerate);
                }
            }
            return true;
        }
        let dx = sub_fix(lx, self.state[0]);
        let dy = sub_fix(ly, self.state[1]);
        let d2 = add_fix(mul_fix(dx, dx), mul_fix(dy, dy));
        proof {
            assert(dx as int == spec_corr_dx(e0, ix)) by {
                reveal(spec_corr_dx);
            }
            assert(dy as int == spec_corr_dy(e0, ix)) by {
                reveal(spec_corr_dy);
            }
            assert(d2 as int == spec_corr_d2(e0, ix)) by {
                reveal(spec_corr_d2);
                reveal(spec_corr_dx);
                reveal(spec_corr_dy);
            }
        }
        if d2 == 0 {
            proof {
                assert(spec_corr_degenerate(e0, ix, *cfg)) by {
                    reveal(spec_corr_degenerate);
                }
            }
            return true;
        }

        // the observation Jacobian's coefficients over its active columns
        let h00 = neg_fix(div_fix(dx, rhat));
        let h01 = neg_fix(div_fix(dy, rhat));
        let h02: i64 = 0;
        let h03 = div_fix(dx, rhat);
        let h04 = div_fix(dy, rhat);
        let h10 = div_fix(dy, d2);
        let h11 = neg_fix(div_fix(dx, d2));
        let h12 = neg_fix(ONE);
        let h13 = neg_fix(div_fix(dy, d2));
        let h14 = div_fix(dx, d2);
        proof {
            reveal(spec_h);
            assert(h00 as int == spec_h(e0, ix, 0, 0));
            assert(h01 as int == spec_h(e0, ix, 0, 1));
            assert(h02 as int == spec_h(e0, ix, 0, 2));
            assert(h03 as int == spec_h(e0, ix, 0, 3));
            assert(h04 as int == spec_h(e0, ix, 0, 4));
            assert(h10 as int == spec_h(e0, ix, 1, 0));
            assert(h11 as int == spec_h(e0, ix, 1, 1));
            assert(h12 as int == spec_h(e0, ix, 1, 2));
            assert(h13 as int == spec_h(e0, ix, 1, 3));
            assert(h14 as int == spec_h(e0, ix, 1, 4));
        }

        // innovation covariance S = H * P * H^T + R and its determinant
        let hp00 = self.row_comb(h00, h01, h02, h03, h04, idx, 0);
        let hp01 = self.row_comb(h00, h01, h02, h03, h04, idx, 1);
        let hp02 = self.row_comb(h00, h01, h02, h03, h04, idx, 2);
        let hp03 = self.row_comb(h00, h01, h02, h03, h04, idx, idx);
        let hp04 = self.row_comb(h00, h01, h02, h03, h04, idx, idx + 1);
        let hp10 = self.row_comb(h10, h11, h12, h13, h14, idx, 0);
        let hp11 = self.row_comb(h10, h11, h12, h13, h14, idx, 1);
        let hp12 = self.row_comb(h10, h11, h12, h13, h14, idx, 2);
        let hp13 = self.row_comb(h10, h11, h12, h13, h14, idx, idx);
        let hp14 = self.row_comb(h10, h11, h12, h13, h14, idx, idx + 1);
        proof {
            reveal(spec_hp);
            assert(hp00 as int == spec_hp(e0, ix, 0, 0));
            assert(hp01 as int == spec_hp(e0, ix, 0, 1));
            assert(hp02 as int == spec_hp(e0, ix, 0, 2));
            assert(hp03 as int == spec_hp(e0, ix, 0, ix));
            assert(hp04 as int == spec_hp(e0, ix, 0, ix + 1));
            assert(hp10 as int == spec_hp(e0, ix, 1, 0));
            assert(hp11 as int == spec_hp(e0, ix, 1, 1));
            assert(hp12 as int == spec_hp(e0, ix, 1, 2));
            assert(hp13 as int == spec_hp(e0, ix, 1, ix));
            assert(hp14 as int == spec_hp(e0, ix, 1, ix + 1));
        }
        let s00 = add_fix(
            add_fix(
                add_fix(
                    add_fix(add_fix(mul_fix(hp00, h00), mul_fix(hp01, h01)), mul_fix(hp02, h02)),
                    mul_fix(hp03, h03),
                ),
                mul_fix(hp04, h04),
            ),
            mul_fix(cfg.sigma_range, cfg.sigma_range),
        );
        let s01 = add_fix(
            add_fix(
                add_fix(add_fix(mul_fix(hp00, h10), mul_fix(hp01, h11)), mul_fix(hp02, h12)),
                mul_fix(hp03, h13),
            ),
            mul_fix(hp04, h14),
        );
        let s11 = add_fix(
            add_fix(
                add_fix(
                    add_fix(add_fix(mul_fix(hp10, h10), mul_fix(hp11, h11)), mul_fix(hp12, h12)),
                    mul_fix(hp13, h13),
                ),
                mul_fix(hp14, h14),
            ),
            mul_fix(cfg.sigma_bearing, cfg.sigma_bearing),
        );
        let det = sub_fix(mul_fix(s00, s11), mul_fix(s01, s01));
        proof {
            assert(s00 as int == spec_s00(e0, ix, *cfg)) by {
                reveal(spec_s00);
                reveal(spec_hph);
            }
            assert(s01 as int == spec_s01(e0, ix)) by {
                reveal(spec_s01);
                reveal(spec_hph);
            }
            assert(s11 as int == spec_s11(e0, ix, *cfg)) by {
                reveal(spec_s11);
                reveal(spec_hph);
            }
            assert(det as int == spec_corr_det(e0, ix, *cfg)) by {
                reveal(spec_corr_det);
            }
        }
        if abs_fix(det) < DET_EPSILON {
            proof {
                assert(spec_corr_degenerate(e0, ix, *cfg)) by {
                    reveal(spec_corr_degenerate);
                }
            }
            return true;
        }
        proof {
            assert(!spec_corr_degenerate(e0, ix, *cfg)) by {
                reveal(spec_corr_degenerate);
            }
        }

        // closed-form inverse of S
        let i00 = div_fix(s11, det);
        let i01 = neg_fix(div_fix(s01, det));
        let i11 = div_fix(s00, det);
        proof {
            reveal(spec_i00);
            reveal(spec_i01);
            reveal(spec_i11);
            assert(i00 as int == spec_i00(e0, ix, *cfg));
            assert(i01 as int == spec_i01(e0, ix, *cfg));
            assert(i11 as int == spec_i11(e0, ix, *cfg));
        }

        // Kalman gain, row by row
        let mut kg0: Vec<i64> = Vec::new();
        let mut kg1: Vec<i64> = Vec::new();
        let mut r: usize = 0;
        while r < n
            invariant
                r <= n,
                kg0@.len() == r as int,
                kg1@.len() == r as int,
                forall|t: int|
                    0 <= t < r as int ==> #[trigger] kg0@[t] as int == spec_kgain(e0, ix, *cfg, t, 0),
                forall|t: int|
                    0 <= t < r as int ==> #[trigger] kg1@[t] as int == spec_kgain(e0, ix, *cfg, t, 1),
            decreases n - r,
        {
            let u0 = self.col_comb(r, idx, h00, h01, h02, h03, h04);
            let u1 = self.col_comb(r, idx, h10, h11, h12, h13, h14);
            proof {
                reveal(spec_pht);
                assert(u0 as int == spec_pht(e0, ix, r as int, 0));
                assert(u1 as int == spec_pht(e0, ix, r as int, 1));
            }
            let k0val = add_fix(mul_fix(u0, i00), mul_fix(u1, i01));
            let k1val = add_fix(mul_fix(u0, i01), mul_fix(u1, i11));
            proof {
                reveal(spec_kgain);
                assert(k0val as int == spec_kgain(e0, ix, *cfg, r as int, 0));
                assert(k1val as int == spec_kgain(e0, ix, *cfg, r as int, 1));
            }
            kg0.push(k0val);
            kg1.push(k1val);
            r += 1;
        }

        // innovation
        let y0 = sub_fix(observation.range, rhat);
        let y1 = normalize_angle(sub_fix(observation.bearing, bhat));
        proof {
            assert(y0 as int == spec_y0(e0, ix, observation.range as int)) by {
                reveal(spec_y0);
            }
            assert(y1 as int == spec_y1(e0, ix, observation.bearing as int)) by {
                reveal(spec_y1);
            }
        }

        // state correction: state += K * innovation, then wrap the heading
        let mut shifted: Vec<i64> = Vec::new();
        let mut r: usize = 0;
        while r < n
            invariant
                r <= n,
                shifted@.len() == r as int,
                forall|t: int|
                    0 <= t < r as int ==> #[trigger] shifted@[t] as int == fxadd(
                        e0.st(t),
                        spec_corr_delta(
                            e0,
                            ix,
                            *cfg,
                            observation.range as int,
                            observation.bearing as int,
                            t,
                        ),
                    ),
            decreases n - r,
        {
            let delta = add_fix(mul_fix(kg0[r], y0), mul_fix(kg1[r], y1));
            proof {
                assert(delta as int == spec_corr_delta(
                    e0,
                    ix,
                    *cfg,
                    observation.range as int,
                    observation.bearing as int,
                    r as int,
                )) by {
                    reveal(spec_corr_delta);
                }
            }
            let nv = add_fix(self.state[r], delta);
            shifted.push(nv);
            r += 1;
        }
        let wrapped = normalize_angle(shifted[2]);
        let ghost pre_wrap = shifted@;
        shifted.set(2, wrapped);
        let ghost state_after = shifted@;
        proof {
            assert forall|t: int| 0 <= t < n as int implies #[trigger] state_after[t] as int
                == spec_corr_state(
                e0,
                ix,
                *cfg,
                observation.range as int,
                observation.bearing as int,
                t,
            ) by {
                reveal(spec_corr_state);
                if t == 2 {
                    assert(wrapped as int == spec_normalize(pre_wrap[2] as int));
                } else {
                    assert(state_after[t] == pre_wrap[t]);
                }
            }
        }
        self.state = shifted;

        // covariance correction: M = P - (K * H) * P
        let mut mv: Vec<i64> = Vec::new();
        let mut r: usize = 0;
        while r < n
            invariant
                r <= n,
                self.state@ == state_after,
                self.covariance@ == e0.covariance@,
                self.observed_landmarks@ == e0.observed_landmarks@,
                mv@.len() == r as int * n as int,
                forall|a: int, b: int|
                    0 <= a < r as int && 0 <= b < n as int ==> #[trigger] mv@[a * n as int
                        + b] as int == spec_corr_m(e0, ix, *cfg, a, b),
            decreases n - r,
        {
            let kh0 = add_fix(mul_fix(kg0[r], h00), mul_fix(kg1[r], h10));
            let kh1 = add_fix(mul_fix(kg0[r], h01), mul_fix(kg1[r], h11));
            let kh2 = add_fix(mul_fix(kg0[r], h02), mul_fix(kg1[r], h12));
            let kh3 = add_fix(mul_fix(kg0[r], h03), mul_fix(kg1[r], h13));
            let kh4 = add_fix(mul_fix(kg0[r], h04), mul_fix(kg1[r], h14));
            proof {
                reveal(spec_kh);
                assert(kh0 as int == spec_kh(e0, ix, *cfg, r as int, 0));
                assert(kh1 as int == spec_kh(e0, ix, *cfg, r as int, 1));
                assert(kh2 as int == spec_kh(e0, ix, *cfg, r as int, 2));
                assert(kh3 as int == spec_kh(e0, ix, *cfg, r as int, 3));
                assert(kh4 as int == spec_kh(e0, ix, *cfg, r as int, 4));
            }
            let mut c: usize = 0;
            while c < n
                invariant
                    mv@.len() == r as int * n as int + c as int,
                    c <= n,
                    forall|a: int, b: int|
                        0 <= a < r as int && 0 <= b < n as int ==> #[trigger] mv@[a * n as int
                            + b] as int == spec_corr_m(e0, ix, *cfg, a, b),
                    forall|b: int|
                        0 <= b < c as int ==> #[trigger] mv@[r as int * n as int + b] as int
                            == spec_corr_m(e0, ix, *cfg, r as int, b),
                decreases n - c,
            {
                let fold = self.row_comb(kh0, kh1, kh2, kh3, kh4, idx, c);
                let entry = sub_fix(self.cov_get(r, c), fold);
                proof {
                    assert(entry as int == spec_corr_m(e0, ix, *cfg, r as int, c as int)) by {
                        reveal(spec_corr_m);
                    }
                }
                mv.push(entry);
                proof {
                    assert forall|a: int, b: int|
                        0 <= a < r as int && 0 <= b < n as int implies #[trigger] mv@[a * n as int
                            + b] as int == spec_corr_m(e0, ix, *cfg, a, b) by {
                        lemma_flat_bound(n as int, a, b);
                        assert(a * n as int + b < r as int * n as int) by (nonlinear_arith)
                            requires
                                0 <= a < r as int && 0 <= b < n as int;
                    }
                }
                c += 1;
            }
            proof {
                assert((r as int + 1) * n as int == r as int * n as int + n as int)
                    by (nonlinear_arith);
                assert forall|a: int, b: int|
                    0 <= a < r as int + 1 && 0 <= b < n as int implies #[trigger] mv@[a * n as int
                        + b] as int == spec_corr_m(e0, ix, *cfg, a, b) by {
                    if a < r as int {
                    } else {
                    }
                }
            }
            r += 1;
        }
        let mtotal = mv.len();
        proof {
            assert(mtotal as int == n as int * n as int);
        }

        // write back the symmetrized corrected covariance
        let mut i: usize = 0;
        while i < n
            invariant
                self.state@ == state_after,
                self.observed_landmarks@ == e0.observed_landmarks@,
                self.covariance@.len() == e0.covariance@.len(),
                i <= n,
                forall|a: int, b: int|
                    0 <= a < n as int && 0 <= b < n as int ==> #[trigger] self.cov_at(a, b) == (
                    if a < i as int {
                        spec_corr_cov(e0, ix, *cfg, a, b)
                    } else {
                        e0.cov_at(a, b)
                    }),
            decreases n - i,
        {
            let mut j: usize = 0;
            while j < n
                invariant
                    self.state@ == state_after,
                    self.observed_landmarks@ == e0.observed_landmarks@,
                    self.covariance@.len() == e0.covariance@.len(),
                    j <= n,
                    forall|a: int, b: int|
                        0 <= a < n as int && 0 <= b < n as int ==> #[trigger] self.cov_at(a, b)
                            == (if a < i as int || (a == i as int && b < j as int) {
                            spec_corr_cov(e0, ix, *cfg, a, b)
                        } else {
                            e0.cov_at(a, b)
                        }),
                decreases n - j,
            {
                proof {
                    lemma_flat_bound(n as int, i as int, j as int);
                    lemma_flat_bound(n as int, j as int, i as int);
                }
                let mij = mv[i * n + j];
                let mji = mv[j * n + i];
                let entry = divc_fix(add_fix(mij, mji), 2);
                proof {
                    assert(entry as int == spec_corr_cov(e0, ix, *cfg, i as int, j as int)) by {
                        reveal(spec_corr_cov);
                    }
                }
                self.cov_set(i, j, entry);
                j += 1;
            }
            i += 1;
        }

        proof {
            assert forall|a: int, b: int|
                0 <= a < n as int && 0 <= b < n as int implies #[trigger] self.cov_at(a, b)
                == spec_corr_cov(e0, ix, *cfg, a, b) by {}
            assert forall|a: int, b: int|
                0 <= a < self.n() && 0 <= b < self.n() implies #[trigger] self.cov_at(a, b)
                == self.cov_at(b, a) by {
                reveal(spec_corr_cov);
                assert(self.cov_at(a, b) == spec_corr_cov(e0, ix, *cfg, a, b));
                assert(self.cov_at(b, a) == spec_corr_cov(e0, ix, *cfg, b, a));
            }
            assert forall|a: int, b: int|
                0 <= a < self.n() && 0 <= b < self.n() implies #[trigger] self.cov_at(a, b)
                >= FIX_MIN as int by {
                reveal(spec_corr_cov);
                assert(self.cov_at(a, b) == spec_corr_cov(e0, ix, *cfg, a, b));
            }
            assert forall|t: int| 0 <= t < self.n() implies #[trigger] self.st(t) >= FIX_MIN as int by {
                reveal(spec_corr_state);
                assert(self.st(t) == spec_corr_state(
                    e0,
                    ix,
                    *cfg,
                    observation.range as int,
                    observation.bearing as int,
                    t,
                ));
                if t == 2 {
                    assert(self.st(t) == state_after[2] as int);
                }
            }
        }
        false
    }

    /// Register a new landmark: convert the sighting to absolute
    /// coordinates, append its block to the state, record its offset, and
    /// grow the covariance with the cross and marginal blocks derived from
    /// the initialization Jacobians.
    fn initialize_landmark(&mut self, observation: &Observation, cfg: &Config)
        requires
            old(self).wf(),
            cfg.wf(),
            observation.range >= 0,
            !spec_has_id(old(self).observed_landmarks@, observation.id),
            (old(self).n() + 2) * (old(self).n() + 2) <= usize::MAX as int,
        ensures
            final(self).wf(),
            final(self).observed_landmarks@ == old(self).observed_landmarks@.push(
                (observation.id, old(self).state@.len() as usize),
            ),
            final(self).state@.len() == old(self).state@.len() + 2,
            forall|i: int| 0 <= i < old(self).n() ==> #[trigger] final(self).st(i) == old(self).st(i),
            final(self).st(old(self).n()) == old(self).spec_rel_to_abs(
                observation.range as int,
                observation.bearing as int,
            ).0,
            final(self).st(old(self).n() + 1) == old(self).spec_rel_to_abs(
                observation.range as int,
                observation.bearing as int,
            ).1,
            forall|a: int, b: int|
                0 <= a < old(self).n() + 2 && 0 <= b < old(self).n() + 2 ==> #[trigger] final(
                self).cov_at(a, b) == spec_init_cov(
                    *old(self),
                    observation.range as int,
                    observation.bearing as int,
                    *cfg,
                    a,
                    b,
                ),
    {
        let ghost rg = observation.range as int;
        let ghost bg = observation.bearing as int;
        let n = self.state.len();
        proof {
            assert(n as int + 2 <= usize::MAX as int) by (nonlinear_arith)
                requires
                    (n as int + 2) * (n as int + 2) <= usize::MAX as int && n as int >= 3;
        }
        let m = n + 2;
        let (lx, ly) = self.relative_to_absolute(observation.range, observation.bearing);

        // initialization Jacobians at the absolute sighting angle
        let theta = self.state[2];
        let aa = add_fix(theta, observation.bearing);
        let ghost aag = aa as int;
        let gcos = cos_fix(aa);
        let gsin = sin_fix(aa);
        let zero: i64 = 0;
        let gr02 = neg_fix(mul_fix(observation.range, gsin));
        let gr12 = mul_fix(observation.range, gcos);
        proof {
            assert(ONE as int == spec_gr_mat(aag, rg, 0, 0));
            assert(gr02 as int == spec_gr_mat(aag, rg, 0, 2));
            assert(gr12 as int == spec_gr_mat(aag, rg, 1, 2));
            assert(gcos as int == spec_gy_mat(aag, rg, 0, 0));
            assert(gr02 as int == spec_gy_mat(aag, rg, 0, 1));
            assert(gsin as int == spec_gy_mat(aag, rg, 1, 0));
            assert(gr12 as int == spec_gy_mat(aag, rg, 1, 1));
        }
        let r00 = mul_fix(cfg.sigma_range, cfg.sigma_range);
        let r11 = mul_fix(cfg.sigma_bearing, cfg.sigma_bearing);

        // marginal covariance of the new landmark
        let p00 = self.cov_get(0, 0);
        let p01 = self.cov_get(0, 1);
        let p02 = self.cov_get(0, 2);
        let p10 = self.cov_get(1, 0);
        let p11 = self.cov_get(1, 1);
        let p12 = self.cov_get(1, 2);
        let p20 = self.cov_get(2, 0);
        let p21 = self.cov_get(2, 1);
        let p22 = self.cov_get(2, 2);
        let u00 = add_fix(add_fix(mul_fix(ONE, p00), mul_fix(zero, p10)), mul_fix(gr02, p20));
        let u01 = add_fix(add_fix(mul_fix(ONE, p01), mul_fix(zero, p11)), mul_fix(gr02, p21));
        let u02 = add_fix(add_fix(mul_fix(ONE, p02), mul_fix(zero, p12)), mul_fix(gr02, p22));
        let u10 = add_fix(add_fix(mul_fix(zero, p00), mul_fix(ONE, p10)), mul_fix(gr12, p20));
        let u11 = add_fix(add_fix(mul_fix(zero, p01), mul_fix(ONE, p11)), mul_fix(gr12, p21));
        let u12 = add_fix(add_fix(mul_fix(zero, p02), mul_fix(ONE, p12)), mul_fix(gr12, p22));
        let t100 = add_fix(add_fix(mul_fix(u00, ONE), mul_fix(u01, zero)), mul_fix(u02, gr02));
        let t101 = add_fix(add_fix(mul_fix(u00, zero), mul_fix(u01, ONE)), mul_fix(u02, gr12));
        let t111 = add_fix(add_fix(mul_fix(u10, zero), mul_fix(u11, ONE)), mul_fix(u12, gr12));
        let v00 = add_fix(mul_fix(gcos, r00), mul_fix(gr02, zero));
        let v01 = add_fix(mul_fix(gcos, zero), mul_fix(gr02, r11));
        let v10 = add_fix(mul_fix(gsin, r00), mul_fix(gr12, zero));
        let v11 = add_fix(mul_fix(gsin, zero), mul_fix(gr12, r11));
        let t200 = add_fix(mul_fix(v00, gcos), mul_fix(v01, gr02));
        let t201 = add_fix(mul_fix(v00, gsin), mul_fix(v01, gr12));
        let t211 = add_fix(mul_fix(v10, gsin), mul_fix(v11, gr12));
        let pll00 = add_fix(t100, t200);
        let pll01 = add_fix(t101, t201);
        let pll11 = add_fix(t111, t211);
        proof {
            assert(pll00 as int == spec_init_pll(*old(self), *cfg, aag, rg, 0, 0));
            assert(pll01 as int == spec_init_pll(*old(self), *cfg, aag, rg, 0, 1));
            assert(pll01 as int == spec_init_pll(*old(self), *cfg, aag, rg, 1, 0));
            assert(pll11 as int == spec_init_pll(*old(self), *cfg, aag, rg, 1, 1));
        }

        // the grown covariance, row-major
        let mut grown: Vec<i64> = Vec::new();
        let mut row: usize = 0;
        while row < m
            invariant
                *self == *old(self),
                n == old(self).n(),
                m == n + 2,
                (m as int) * (m as int) <= usize::MAX as int,
                old(self).wf(),
                cfg.wf(),
                row <= m,
                aag == fxadd(old(self).st(2), bg),
                ONE as int == spec_gr_mat(aag, rg, 0, 0),
                zero as int == spec_gr_mat(aag, rg, 0, 1),
                zero as int == spec_gr_mat(aag, rg, 1, 0),
                ONE as int == spec_gr_mat(aag, rg, 1, 1),
                gr02 as int == spec_gr_mat(aag, rg, 0, 2),
                gr12 as int == spec_gr_mat(aag, rg, 1, 2),
                pll00 as int == spec_init_pll(*old(self), *cfg, aag, rg, 0, 0),
                pll01 as int == spec_init_pll(*old(self), *cfg, aag, rg, 0, 1),
                pll01 as int == spec_init_pll(*old(self), *cfg, aag, rg, 1, 0),
                pll11 as int == spec_init_pll(*old(self), *cfg, aag, rg, 1, 1),
                grown@.len() == row as int * m as int,
                forall|a: int, b: int|
                    0 <= a < row as int && 0 <= b < m as int ==> #[trigger] grown@[a * m as int
                        + b] as int == spec_init_cov(*old(self), rg, bg, *cfg, a, b),
            decreases m - row,
        {
            let ghost len0 = grown@.len();
            let mut c: usize = 0;
            while c < m
                invariant
                    *self == *old(self),
                    n == old(self).n(),
                    m == n + 2,
                    (m as int) * (m as int) <= usize::MAX as int,
                    old(self).wf(),
                    cfg.wf(),
                    row < m,
                    c <= m,
                    aag == fxadd(old(self).st(2), bg),
                    ONE as int == spec_gr_mat(aag, rg, 0, 0),
                    zero as int == spec_gr_mat(aag, rg, 0, 1),
                    zero as int == spec_gr_mat(aag, rg, 1, 0),
                    ONE as int == spec_gr_mat(aag, rg, 1, 1),
                    gr02 as int == spec_gr_mat(aag, rg, 0, 2),
                    gr12 as int == spec_gr_mat(aag, rg, 1, 2),
                    pll00 as int == spec_init_pll(*old(self), *cfg, aag, rg, 0, 0),
                    pll01 as int == spec_init_pll(*old(self), *cfg, aag, rg, 0, 1),
                    pll01 as int == spec_init_pll(*old(self), *cfg, aag, rg, 1, 0),
                    pll11 as int == spec_init_pll(*old(self), *cfg, aag, rg, 1, 1),
                    grown@.len() == row as int * m as int + c as int,
                    forall|a: int, b: int|
                        0 <= a < row as int && 0 <= b < m as int ==> #[trigger] grown@[a
                            * m as int + b] as int == spec_init_cov(*old(self), rg, bg, *cfg, a, b),
                    forall|b: int|
                        0 <= b < c as int ==> #[trigger] grown@[row as int * m as int + b] as int
                            == spec_init_cov(*old(self), rg, bg, *cfg, row as int, b),
                decreases m - c,
            {
                let entry: i64 = if row < n && c < n {
                    self.cov_get(row, c)
                } else if row >= n && c < n {
                    let p0c = self.cov_get(0, c);
                    let p1c = self.cov_get(1, c);
                    let p2c = self.cov_get(2, c);
                    if row == n {
                        add_fix(
                            add_fix(mul_fix(ONE, p0c), mul_fix(zero, p1c)),
                            mul_fix(gr02, p2c),
                        )
                    } else {
                        add_fix(
                            add_fix(mul_fix(zero, p0c), mul_fix(ONE, p1c)),
                            mul_fix(gr12, p2c),
                        )
                    }
                } else if row < n {
                    let p0c = self.cov_get(0, row);
                    let p1c = self.cov_get(1, row);
                    let p2c = self.cov_get(2, row);
                    if c == n {
                        add_fix(
                            add_fix(mul_fix(ONE, p0c), mul_fix(zero, p1c)),
                            mul_fix(gr02, p2c),
                        )
                    } else {
                        add_fix(
                            add_fix(mul_fix(zero, p0c), mul_fix(ONE, p1c)),
                            mul_fix(gr12, p2c),
                        )
                    }
                } else {
                    if row == n && c == n {
                        pll00
                    } else if row == n + 1 && c == n + 1 {
                        pll11
                    } else {
                        pll01
                    }
                };
                proof {
                    assert(entry as int == spec_init_cov(*old(self), rg, bg, *cfg, row as int, c as int));
                }
                grown.push(entry);
                proof {
                    assert forall|a: int, b: int|
                        0 <= a < row as int && 0 <= b < m as int implies #[trigger] grown@[a
                            * m as int + b] as int == spec_init_cov(*old(self), rg, bg, *cfg, a, b) by {
                        lemma_flat_bound(m as int, a, b);
                        assert(a * m as int + b < row as int * m as int + c as int + 1) by (nonlinear_arith)
                            requires 0 <= a < row as int && 0 <= b < m as int && 0 <= c as int;
                        if a * m as int + b == row as int * m as int + c as int {
                            lemma_flat_inj(m as int, a, b, row as int, c as int);
                        }
                    }
                    assert forall|b: int|
                        0 <= b < c as int + 1 implies #[trigger] grown@[row as int * m as int
                            + b] as int == spec_init_cov(*old(self), rg, bg, *cfg, row as int, b) by {
                        if b == c as int {
                        } else {
                        }
                    }
                }
                c += 1;
            }
            proof {
                assert((row as int + 1) * m as int == row as int * m as int + m as int)
                    by (nonlinear_arith);
                assert forall|a: int, b: int|
                    0 <= a < row as int + 1 && 0 <= b < m as int implies #[trigger] grown@[a
                        * m as int + b] as int == spec_init_cov(*old(self), rg, bg, *cfg, a, b) by {
                    if a < row as int {
                    } else {
                    }
                }
            }
            row += 1;
        }
        proof {
            assert(grown@.len() == m as int * m as int);
        }

        // install the grown matrix, then append the landmark block
        self.covariance = grown;
        self.observed_landmarks.push((observation.id, n));
        self.state.push(lx);
        self.state.push(ly);
        proof {
            assert(self.n() == m as int);
            assert forall|i: int| 0 <= i < old(self).n() implies #[trigger] self.st(i) == old(self).st(i) by {}
            assert forall|a: int, b: int|
                0 <= a < old(self).n() + 2 && 0 <= b < old(self).n() + 2 implies #[trigger] self.cov_at(
                a,
                b,
            ) == spec_init_cov(*old(self), rg, bg, *cfg, a, b) by {}
            assert forall|a: int, b: int|
                0 <= a < self.n() && 0 <= b < self.n() implies #[trigger] self.cov_at(a, b)
                == self.cov_at(b, a) by {
                assert(self.cov_at(a, b) == spec_init_cov(*old(self), rg, bg, *cfg, a, b));
                assert(self.cov_at(b, a) == spec_init_cov(*old(self), rg, bg, *cfg, b, a));
            }
            assert forall|a: int, b: int|
                0 <= a < self.n() && 0 <= b < self.n() implies #[trigger] self.cov_at(a, b)
                >= FIX_MIN as int by {
                assert(self.cov_at(a, b) == spec_init_cov(*old(self), rg, bg, *cfg, a, b));
            }
            assert forall|k: int|
                0 <= k < self.observed_landmarks@.len() implies (
            #[trigger] self.observed_landmarks@[k]).1 == 3 + 2 * k by {}
        }
    }

    /// Advance the estimate by one control tick: move the pose along the
    /// constant-velocity unicycle model at the mid-tick heading, wrap the
    /// heading, and propagate every covariance entry that touches the robot
    /// through the motion Jacobian, adding floored control noise to the robot
    /// block. Landmark positions and landmark-only covariance blocks are
    /// untouched.
    pub fn predict(&mut self, linear_velocity: i64, angular_velocity: i64, delta_time: i64)
        requires
            old(self).wf(),
            delta_time >= 0,
        ensures
            final(self).wf(),
            final(self).observed_landmarks@ == old(self).observed_landmarks@,
            final(self).state@.len() == old(self).state@.len(),
            forall|i: int|
                0 <= i < old(self).n() ==> #[trigger] final(self).st(i) == spec_predict_state(
                    *old(self),
                    linear_velocity as int,
                    angular_velocity as int,
                    delta_time as int,
                    i,
                ),
            forall|i: int, j: int|
                0 <= i < old(self).n() && 0 <= j < old(self).n() ==> #[trigger] final(
                self).cov_at(i, j) == spec_predict_cov(
                    *old(self),
                    linear_velocity as int,
                    angular_velocity as int,
                    delta_time as int,
                    i,
                    j,
                ),
    {
        let ghost v = linear_velocity as int;
        let ghost w = angular_velocity as int;
        let ghost dt = delta_time as int;
        let n = self.state.len();
        let theta = self.state[2];
        let theta_mid = add_fix(theta, mul_fix(HALF, mul_fix(angular_velocity, delta_time)));
        let cos_mid = cos_fix(theta_mid);
        let sin_mid = sin_fix(theta_mid);
        let vdt = mul_fix(linear_velocity, delta_time);
        proof {
            assert(theta_mid as int == spec_theta_mid(old(self).st(2), w, dt));
        }
        let ghost tm = theta_mid as int;

        // advance the pose estimate
        let s0 = add_fix(self.state[0], mul_fix(vdt, cos_mid));
        let s1 = add_fix(self.state[1], mul_fix(vdt, sin_mid));
        let s2 = normalize_angle(add_fix(theta, mul_fix(angular_velocity, delta_time)));
        self.state.set(0, s0);
        self.state.set(1, s1);
        self.state.set(2, s2);
        proof {
            assert forall|i: int| 0 <= i < old(self).n() implies #[trigger] self.st(i)
                == spec_predict_state(*old(self), v, w, dt, i) by {}
        }
        let ghost state_after = self.state@;

        // motion Jacobian with respect to the robot state
        let fx00 = ONE;
        let fx01: i64 = 0;
        let fx02 = neg_fix(mul_fix(vdt, sin_mid));
        let fx10: i64 = 0;
        let fx11 = ONE;
        let fx12 = mul_fix(vdt, cos_mid);
        let fx20: i64 = 0;
        let fx21: i64 = 0;
        let fx22 = ONE;
        proof {
            assert(fx00 as int == spec_fx_mat(tm, v, dt, 0, 0));
            assert(fx01 as int == spec_fx_mat(tm, v, dt, 0, 1));
            assert(fx02 as int == spec_fx_mat(tm, v, dt, 0, 2));
            assert(fx10 as int == spec_fx_mat(tm, v, dt, 1, 0));
            assert(fx11 as int == spec_fx_mat(tm, v, dt, 1, 1));
            assert(fx12 as int == spec_fx_mat(tm, v, dt, 1, 2));
            assert(fx20 as int == spec_fx_mat(tm, v, dt, 2, 0));
            assert(fx21 as int == spec_fx_mat(tm, v, dt, 2, 1));
            assert(fx22 as int == spec_fx_mat(tm, v, dt, 2, 2));
        }

        // current robot covariance block
        let p00 = self.cov_get(0, 0);
        let p01 = self.cov_get(0, 1);
        let p02 = self.cov_get(0, 2);
        let p10 = self.cov_get(1, 0);
        let p11 = self.cov_get(1, 1);
        let p12 = self.cov_get(1, 2);
        let p20 = self.cov_get(2, 0);
        let p21 = self.cov_get(2, 1);
        let p22 = self.cov_get(2, 2);

        // A = F_x * P_rr
        let a00 = add_fix(add_fix(mul_fix(fx00, p00), mul_fix(fx01, p10)), mul_fix(fx02, p20));
        let a01 = add_fix(add_fix(mul_fix(fx00, p01), mul_fix(fx01, p11)), mul_fix(fx02, p21));
        let a02 = add_fix(add_fix(mul_fix(fx00, p02), mul_fix(fx01, p12)), mul_fix(fx02, p22));
        let a10 = add_fix(add_fix(mul_fix(fx10, p00), mul_fix(fx11, p10)), mul_fix(fx12, p20));
        let a11 = add_fix(add_fix(mul_fix(fx10, p01), mul_fix(fx11, p11)), mul_fix(fx12, p21));
        let a12 = add_fix(add_fix(mul_fix(fx10, p02), mul_fix(fx11, p12)), mul_fix(fx12, p22));
        let a20 = add_fix(add_fix(mul_fix(fx20, p00), mul_fix(fx21, p10)), mul_fix(fx22, p20));
        let a21 = add_fix(add_fix(mul_fix(fx20, p01), mul_fix(fx21, p11)), mul_fix(fx22, p21));
        let a22 = add_fix(add_fix(mul_fix(fx20, p02), mul_fix(fx21, p12)), mul_fix(fx22, p22));
        proof {
            assert(a00 as int == spec_prr_a(*old(self), v, w, dt, 0, 0));
            assert(a01 as int == spec_prr_a(*old(self), v, w, dt, 0, 1));
            assert(a02 as int == spec_prr_a(*old(self), v, w, dt, 0, 2));
            assert(a10 as int == spec_prr_a(*old(self), v, w, dt, 1, 0));
            assert(a11 as int == spec_prr_a(*old(self), v, w, dt, 1, 1));
            assert(a12 as int == spec_prr_a(*old(self), v, w, dt, 1, 2));
            assert(a20 as int == spec_prr_a(*old(self), v, w, dt, 2, 0));
            assert(a21 as int == spec_prr_a(*old(self), v, w, dt, 2, 1));
            assert(a22 as int == spec_prr_a(*old(self), v, w, dt, 2, 2));
        }

        // B = A * F_x^T, upper triangle
        let b00 = add_fix(add_fix(mul_fix(a00, fx00), mul_fix(a01, fx01)), mul_fix(a02, fx02));
        let b01 = add_fix(add_fix(mul_fix(a00, fx10), mul_fix(a01, fx11)), mul_fix(a02, fx12));
        let b02 = add_fix(add_fix(mul_fix(a00, fx20), mul_fix(a01, fx21)), mul_fix(a02, fx22));
        let b11 = add_fix(add_fix(mul_fix(a10, fx10), mul_fix(a11, fx11)), mul_fix(a12, fx12));
        let b12 = add_fix(add_fix(mul_fix(a10, fx20), mul_fix(a11, fx21)), mul_fix(a12, fx22));
        let b22 = add_fix(add_fix(mul_fix(a20, fx20), mul_fix(a21, fx21)), mul_fix(a22, fx22));
        proof {
            assert(b00 as int == spec_prr_fpf(*old(self), v, w, dt, 0, 0));
            assert(b01 as int == spec_prr_fpf(*old(self), v, w, dt, 0, 1));
            assert(b02 as int == spec_prr_fpf(*old(self), v, w, dt, 0, 2));
            assert(b11 as int == spec_prr_fpf(*old(self), v, w, dt, 1, 1));
            assert(b12 as int == spec_prr_fpf(*old(self), v, w, dt, 1, 2));
            assert(b22 as int == spec_prr_fpf(*old(self), v, w, dt, 2, 2));
        }

        // control noise pushed through its Jacobian: D = F_n * N * F_n^T
        let sl = add_fix(mul_fix(PROCESS_NOISE_COEFF, abs_fix(linear_velocity)), PROCESS_NOISE_FLOOR);
        let sa = add_fix(
            mul_fix(PROCESS_NOISE_COEFF, abs_fix(angular_velocity)),
            PROCESS_NOISE_FLOOR,
        );
        let n00 = mul_fix(sl, sl);
        let n11 = mul_fix(sa, sa);
        let zero: i64 = 0;
        let fn00 = mul_fix(cos_mid, delta_time);
        let fn10 = mul_fix(sin_mid, delta_time);
        let fn21 = delta_time;
        let c00 = add_fix(mul_fix(fn00, n00), mul_fix(zero, zero));
        let c01 = add_fix(mul_fix(fn00, zero), mul_fix(zero, n11));
        let c10 = add_fix(mul_fix(fn10, n00), mul_fix(zero, zero));
        let c11 = add_fix(mul_fix(fn10, zero), mul_fix(zero, n11));
        let c20 = add_fix(mul_fix(zero, n00), mul_fix(fn21, zero));
        let c21 = add_fix(mul_fix(zero, zero), mul_fix(fn21, n11));
        let d00 = add_fix(mul_fix(c00, fn00), mul_fix(c01, zero));
        let d01 = add_fix(mul_fix(c00, fn10), mul_fix(c01, zero));
        let d02 = add_fix(mul_fix(c00, zero), mul_fix(c01, fn21));
        let d11 = add_fix(mul_fix(c10, fn10), mul_fix(c11, zero));
        let d12 = add_fix(mul_fix(c10, zero), mul_fix(c11, fn21));
        let d22 = add_fix(mul_fix(c20, zero), mul_fix(c21, fn21));
        proof {
            assert(d00 as int == spec_noise_term(tm, v, w, dt, 0, 0));
            assert(d01 as int == spec_noise_term(tm, v, w, dt, 0, 1));
            assert(d02 as int == spec_noise_term(tm, v, w, dt, 0, 2));
            assert(d11 as int == spec_noise_term(tm, v, w, dt, 1, 1));
            assert(d12 as int == spec_noise_term(tm, v, w, dt, 1, 2));
            assert(d22 as int == spec_noise_term(tm, v, w, dt, 2, 2));
        }

        // new robot block, written symmetrically
        let s00 = add_fix(b00, d00);
        let s01 = add_fix(b01, d01);
        let s02 = add_fix(b02, d02);
        let s11 = add_fix(b11, d11);
        let s12 = add_fix(b12, d12);
        let s22 = add_fix(b22, d22);
        self.cov_set(0, 0, s00);
        self.cov_set(0, 1, s01);
        self.cov_set(0, 2, s02);
        self.cov_set(1, 0, s01);
        self.cov_set(1, 1, s11);
        self.cov_set(1, 2, s12);
        self.cov_set(2, 0, s02);
        self.cov_set(2, 1, s12);
        self.cov_set(2, 2, s22);
        proof {
            assert forall|i: int, j: int|
                0 <= i < old(self).n() && 0 <= j < old(self).n() implies #[trigger] self.cov_at(
                i,
                j,
            ) == (if i < 3 && j < 3 {
                spec_predict_prr(*old(self), v, w, dt, i, j)
            } else {
                old(self).cov_at(i, j)
            }) by {}
        }

        // propagate the robot-to-map cross covariance, column by column
        let mut col: usize = 3;
        while col < n
            invariant
                3 <= col <= n,
                n == old(self).state@.len(),
                self.state@.len() == n,
                self.covariance@.len() == old(self).n() * old(self).n(),
                self.observed_landmarks@ == old(self).observed_landmarks@,
                old(self).wf(),
                -(PI_FIX as int) < self.st(2) <= PI_FIX as int,
                tm == spec_theta_mid(old(self).st(2), w, dt),
                fx00 as int == spec_fx_mat(tm, v, dt, 0, 0),
                fx01 as int == spec_fx_mat(tm, v, dt, 0, 1),
                fx02 as int == spec_fx_mat(tm, v, dt, 0, 2),
                fx10 as int == spec_fx_mat(tm, v, dt, 1, 0),
                fx11 as int == spec_fx_mat(tm, v, dt, 1, 1),
                fx12 as int == spec_fx_mat(tm, v, dt, 1, 2),
                fx20 as int == spec_fx_mat(tm, v, dt, 2, 0),
                fx21 as int == spec_fx_mat(tm, v, dt, 2, 1),
                fx22 as int == spec_fx_mat(tm, v, dt, 2, 2),
                self.state@ == state_after,
                forall|i: int, j: int|
                    0 <= i < old(self).n() && 0 <= j < old(self).n() ==> #[trigger] self.cov_at(
                        i,
                        j,
                    ) == (if i < 3 && j < 3 {
                        spec_predict_prr(*old(self), v, w, dt, i, j)
                    } else if i < 3 && 3 <= j < col {
                        spec_predict_cross(*old(self), v, w, dt, i, j)
                    } else if j < 3 && 3 <= i < col {
                        spec_predict_cross(*old(self), v, w, dt, j, i)
                    } else {
                        old(self).cov_at(i, j)
                    }),
            decreases n - col,
        {
            let p0c = self.cov_get(0, col);
            let p1c = self.cov_get(1, col);
            let p2c = self.cov_get(2, col);
            proof {
                assert(p0c as int == old(self).cov_at(0, col as int));
                assert(p1c as int == old(self).cov_at(1, col as int));
                assert(p2c as int == old(self).cov_at(2, col as int));
            }
            let t0 = add_fix(add_fix(mul_fix(fx00, p0c), mul_fix(fx01, p1c)), mul_fix(fx02, p2c));
            let t1 = add_fix(add_fix(mul_fix(fx10, p0c), mul_fix(fx11, p1c)), mul_fix(fx12, p2c));
            let t2 = add_fix(add_fix(mul_fix(fx20, p0c), mul_fix(fx21, p1c)), mul_fix(fx22, p2c));
            proof {
                assert(t0 as int == spec_predict_cross(*old(self), v, w, dt, 0, col as int));
                assert(t1 as int == spec_predict_cross(*old(self), v, w, dt, 1, col as int));
                assert(t2 as int == spec_predict_cross(*old(self), v, w, dt, 2, col as int));
            }
            self.cov_set(0, col, t0);
            self.cov_set(1, col, t1);
            self.cov_set(2, col, t2);
            self.cov_set(col, 0, t0);
            self.cov_set(col, 1, t1);
            self.cov_set(col, 2, t2);
            col += 1;
        }

        proof {
            assert forall|i: int| 0 <= i < old(self).n() implies #[trigger] self.st(i)
                == spec_predict_state(*old(self), v, w, dt, i) by {
                assert(self.state@ == state_after);
            }
            assert forall|i: int, j: int|
                0 <= i < old(self).n() && 0 <= j < old(self).n() implies #[trigger] self.cov_at(
                i,
                j,
            ) == spec_predict_cov(*old(self), v, w, dt, i, j) by {}
            assert forall|i: int, j: int|
                0 <= i < self.n() && 0 <= j < self.n() implies #[trigger] self.cov_at(i, j)
                == self.cov_at(j, i) by {
                assert(self.cov_at(i, j) == spec_predict_cov(*old(self), v, w, dt, i, j));
                assert(self.cov_at(j, i) == spec_predict_cov(*old(self), v, w, dt, j, i));
            }
            assert forall|i: int, j: int|
                0 <= i < self.n() && 0 <= j < self.n() implies #[trigger] self.cov_at(i, j)
                >= FIX_MIN as int by {
                assert(self.cov_at(i, j) == spec_predict_cov(*old(self), v, w, dt, i, j));
            }
        }
    }
}

} // verus!
