//! Local planar projection and distance computation.
//!
//! Coordinates are fixed-point: angular degrees scaled by `10^7` (`_e7`
//! fields) and planar offsets in millimetres. The projection is the usual
//! flat-earth approximation around a reference point: each axis is the
//! angular difference times a per-degree scale factor. The scale factors are
//! supplied by the caller (they come from the ellipsoidal radii evaluated at
//! the reference), so everything here is exact integer arithmetic.

use vstd::prelude::*;

verus! {

/// Fixed-point scale of angular coordinates: degrees times `10^7`.
pub const COORD_E7_SCALE: i64 = 10_000_000;

/// Largest angular magnitude accepted anywhere: 180 degrees.
pub const ANGLE_ABS_MAX_E7: i64 = 1_800_000_000;

/// Largest latitude magnitude accepted for a reference point: 90 degrees.
pub const LAT_ABS_MAX_E7: i64 = 900_000_000;

/// Upper bound on a per-degree scale factor (millimetres per degree).
/// The WGS-84 value is about `1.11 * 10^8`; the bound leaves headroom.
pub const SCALE_MM_MAX: i64 = 200_000_000;

/// Largest planar offset a projection can produce:
/// `2 * ANGLE_ABS_MAX_E7 * SCALE_MM_MAX / COORD_E7_SCALE`.
pub const PLANAR_ABS_MAX_MM: i64 = 72_000_000_000;

/// Integer square root: the greatest `r` with `r * r <= n`.
///
/// Defined recursively so that facts about it follow by induction;
/// `lemma_isqrt_bounds` gives the usual bounding characterization.
pub open spec fn isqrt_spec(n: nat) -> nat
    decreases n,
{
    if n == 0 {
        0
    } else {
        let p = isqrt_spec((n - 1) as nat);
        if (p + 1) * (p + 1) <= n {
            p + 1
        } else {
            p
        }
    }
}

pub proof fn lemma_isqrt_bounds(n: nat)
    ensures
        isqrt_spec(n) * isqrt_spec(n) <= n,
        n < (isqrt_spec(n) + 1) * (isqrt_spec(n) + 1),
    decreases n,
{
    if n > 0 {
        lemma_isqrt_bounds((n - 1) as nat);
        let p = isqrt_spec((n - 1) as nat);
        if (p + 1) * (p + 1) <= n {
            assert(n < (p + 1 + 1) * (p + 1 + 1)) by (nonlinear_arith)
                requires
                    n - 1 < (p + 1) * (p + 1),
            ;
        }
    } else {
        assert(n < (isqrt_spec(n) + 1) * (isqrt_spec(n) + 1)) by (nonlinear_arith)
            requires
                n == 0,
                isqrt_spec(n) == 0,
        ;
    }
}

/// The bounds `r^2 <= n < (r+1)^2` pin the integer square root down.
pub proof fn lemma_isqrt_unique(n: nat, r: nat)
    requires
        r * r <= n,
        n < (r + 1) * (r + 1),
    ensures
        r == isqrt_spec(n),
{
    lemma_isqrt_bounds(n);
    let s = isqrt_spec(n);
    if r < s {
        assert((r + 1) * (r + 1) <= s * s) by (nonlinear_arith)
            requires
                r + 1 <= s,
        ;
    }
    if s < r {
        assert((s + 1) * (s + 1) <= r * r) by (nonlinear_arith)
            requires
                s + 1 <= r,
        ;
    }
}

pub fn isqrt(n: u128) -> (r: u128)
    ensures
        r as nat == isqrt_spec(n as nat),
{
    let mut lo: u128 = 0;
    let mut hi: u128 = 0x1_0000_0000_0000_0000;
    assert((n as int) < (hi as int) * (hi as int)) by (nonlinear_arith)
        requires
            hi as int == 0x1_0000_0000_0000_0000,
            n as int <= 0xffff_ffff_ffff_ffff_ffff_ffff_ffff_ffff,
    ;
    while lo + 1 < hi
        invariant
            lo < hi <= 0x1_0000_0000_0000_0000u128,
            (lo as int) * (lo as int) <= n as int,
            (n as int) < (hi as int) * (hi as int),
        decreases hi - lo,
    {
        let mid = lo + (hi - lo) / 2;
        assert((mid as int) * (mid as int) <= 0xffff_ffff_ffff_ffff_ffff_ffff_ffff_ffff)
            by (nonlinear_arith)
            requires
                0 <= mid as int <= 0xffff_ffff_ffff_ffff,
        ;
        if mid * mid <= n {
            lo = mid;
        } else {
            hi = mid;
        }
    }
    proof {
        lemma_isqrt_unique(n as nat, lo as nat);
    }
    lo
}

/// Reference point, per-degree scale factors and the distance threshold:
/// everything the per-file analysis needs besides the points themselves.
#[derive(Clone, Copy, PartialEq, Eq, Structural, Debug)]
pub struct AnalysisConfig {
    pub ref_lat_e7: i64,
    pub ref_lon_e7: i64,
    pub lat_scale_mm: i64,
    pub lon_scale_mm: i64,
    pub threshold_mm: u128,
}

impl AnalysisConfig {
    /// Bounds under which every arithmetic step of the analysis stays exact.
    pub open spec fn valid(self) -> bool {
        &&& -LAT_ABS_MAX_E7 <= self.ref_lat_e7 <= LAT_ABS_MAX_E7
        &&& -ANGLE_ABS_MAX_E7 <= self.ref_lon_e7 <= ANGLE_ABS_MAX_E7
        &&& 0 <= self.lat_scale_mm <= SCALE_MM_MAX
        &&& 0 <= self.lon_scale_mm <= SCALE_MM_MAX
    }

    /// Validates the reference coordinate and scale factors up front; an
    /// out-of-range input is rejected here, before any file is processed.
    pub fn new(
        ref_lat_e7: i64,
        ref_lon_e7: i64,
        lat_scale_mm: i64,
        lon_scale_mm: i64,
        threshold_mm: u128,
    ) -> (r: Option<AnalysisConfig>)
        ensures
            r is Some <==> (AnalysisConfig {
                ref_lat_e7,
                ref_lon_e7,
                lat_scale_mm,
                lon_scale_mm,
                threshold_mm,
            }).valid(),
            r is Some ==> r->Some_0 == (AnalysisConfig {
                ref_lat_e7,
                ref_lon_e7,
                lat_scale_mm,
                lon_scale_mm,
                threshold_mm,
            }),
    {
        if -LAT_ABS_MAX_E7 <= ref_lat_e7 && ref_lat_e7 <= LAT_ABS_MAX_E7
            && -ANGLE_ABS_MAX_E7 <= ref_lon_e7 && ref_lon_e7 <= ANGLE_ABS_MAX_E7
            && 0 <= lat_scale_mm && lat_scale_mm <= SCALE_MM_MAX
            && 0 <= lon_scale_mm && lon_scale_mm <= SCALE_MM_MAX
        {
            Some(AnalysisConfig { ref_lat_e7, ref_lon_e7, lat_scale_mm, lon_scale_mm, threshold_mm })
        } else {
            None
        }
    }
}

/// A point in the local planar frame, in millimetres; meaningful only
/// relative to the reference coordinate it was projected against.
#[derive(Clone, Copy, PartialEq, Eq, Structural, Debug)]
pub struct PlanarPoint {
    pub x_mm: i64,
    pub y_mm: i64,
}

pub open spec fn in_planar_range(p: PlanarPoint) -> bool {
    &&& -PLANAR_ABS_MAX_MM <= p.x_mm <= PLANAR_ABS_MAX_MM
    &&& -PLANAR_ABS_MAX_MM <= p.y_mm <= PLANAR_ABS_MAX_MM
}

/// One planar axis: angular difference times scale, brought back to
/// millimetres. Rounds toward zero.
pub open spec fn scaled_axis_mm(d_e7: int, scale_mm: int) -> int {
    if d_e7 < 0 {
        -((-d_e7) * scale_mm / (COORD_E7_SCALE as int))
    } else {
        d_e7 * scale_mm / (COORD_E7_SCALE as int)
    }
}

fn scaled_axis(d_e7: i64, scale_mm: i64) -> (r: i64)
    requires
        -2 * ANGLE_ABS_MAX_E7 <= d_e7 <= 2 * ANGLE_ABS_MAX_E7,
        0 <= scale_mm <= SCALE_MM_MAX,
    ensures
        r as int == scaled_axis_mm(d_e7 as int, scale_mm as int),
        -PLANAR_ABS_MAX_MM <= r <= PLANAR_ABS_MAX_MM,
{
    let a: i64 = if d_e7 < 0 {
        -d_e7
    } else {
        d_e7
    };
    proof {
        assert(0 <= (a as int) * (scale_mm as int) <= 720_000_000_000_000_000)
            by (nonlinear_arith)
            requires
                0 <= a as int <= 2 * ANGLE_ABS_MAX_E7,
                0 <= scale_mm <= SCALE_MM_MAX,
        ;
        assert((a as int) * (scale_mm as int) / (COORD_E7_SCALE as int) <= PLANAR_ABS_MAX_MM)
            by (nonlinear_arith)
            requires
                0 <= (a as int) * (scale_mm as int) <= 720_000_000_000_000_000,
        ;
    }
    let q = (a * scale_mm) / COORD_E7_SCALE;
    if d_e7 < 0 {
        -q
    } else {
        q
    }
}

/// Projects an angular coordinate into the reference-centred planar frame.
pub fn project(cfg: &AnalysisConfig, lat_e7: i64, lon_e7: i64) -> (p: PlanarPoint)
    requires
        cfg.valid(),
        -ANGLE_ABS_MAX_E7 <= lat_e7 <= ANGLE_ABS_MAX_E7,
        -ANGLE_ABS_MAX_E7 <= lon_e7 <= ANGLE_ABS_MAX_E7,
    ensures
        p.x_mm as int == scaled_axis_mm(lon_e7 - cfg.ref_lon_e7, cfg.lon_scale_mm as int),
        p.y_mm as int == scaled_axis_mm(lat_e7 - cfg.ref_lat_e7, cfg.lat_scale_mm as int),
        in_planar_range(p),
{
    let x_mm = scaled_axis(lon_e7 - cfg.ref_lon_e7, cfg.lon_scale_mm);
    let y_mm = scaled_axis(lat_e7 - cfg.ref_lat_e7, cfg.lat_scale_mm);
    PlanarPoint { x_mm, y_mm }
}

proof fn lemma_mul_bound(a: int, b: int, am: int, bm: int)
    by (nonlinear_arith)
    requires
        -am <= a <= am,
        -bm <= b <= bm,
        0 <= am,
        0 <= bm,
    ensures
        -(am * bm) <= a * b <= am * bm,
{
}

proof fn lemma_sq_bound(a: int, am: int)
    by (nonlinear_arith)
    requires
        -am <= a <= am,
        0 <= am,
    ensures
        0 <= a * a <= am * am,
{
}

pub open spec fn abs_of(a: int) -> int {
    if a < 0 {
        -a
    } else {
        a
    }
}

pub open spec fn norm_sq(x: int, y: int) -> int {
    x * x + y * y
}

/// Straight-line distance from the reference (the planar origin) to a point,
/// in whole millimetres (rounded down).
pub open spec fn point_dist_mm(x: int, y: int) -> int {
    isqrt_spec(norm_sq(x, y) as nat) as int
}

/// Distance from the reference to the track at the step `prev -> cur`.
///
/// When the reference's projection onto the segment direction falls between
/// the two endpoints' projections (a sign test on the endpoints' coordinates
/// along the segment direction), this is the perpendicular offset of the
/// reference from the segment line; otherwise it falls back to the
/// straight-line distance to `cur`.
pub open spec fn approach_dist_mm(px: int, py: int, x: int, y: int) -> int {
    let dx = x - px;
    let dy = y - py;
    if dx == 0 && dy == 0 {
        point_dist_mm(x, y)
    } else {
        let t_prev = px * dx + py * dy;
        let t_cur = x * dx + y * dy;
        if (t_prev >= 0 && t_cur <= 0) || (t_prev <= 0 && t_cur >= 0) {
            abs_of(px * y - py * x) / (isqrt_spec(norm_sq(dx, dy) as nat) as int)
        } else {
            point_dist_mm(x, y)
        }
    }
}

pub fn point_distance(p: PlanarPoint) -> (d: u128)
    requires
        in_planar_range(p),
    ensures
        d as int == point_dist_mm(p.x_mm as int, p.y_mm as int),
{
    let x = p.x_mm as i128;
    let y = p.y_mm as i128;
    proof {
        lemma_sq_bound(x as int, PLANAR_ABS_MAX_MM as int);
        lemma_sq_bound(y as int, PLANAR_ABS_MAX_MM as int);
    }
    let n = (x * x + y * y) as u128;
    isqrt(n)
}

pub fn approach_distance(prev: PlanarPoint, cur: PlanarPoint) -> (d: u128)
    requires
        in_planar_range(prev),
        in_planar_range(cur),
    ensures
        d as int == approach_dist_mm(prev.x_mm as int, prev.y_mm as int, cur.x_mm as int,
            cur.y_mm as int),
{
    let px = prev.x_mm as i128;
    let py = prev.y_mm as i128;
    let x = cur.x_mm as i128;
    let y = cur.y_mm as i128;
    let dx = x - px;
    let dy = y - py;
    if dx == 0 && dy == 0 {
        return point_distance(cur);
    }
    proof {
        lemma_mul_bound(px as int, dx as int, PLANAR_ABS_MAX_MM as int,
            2 * PLANAR_ABS_MAX_MM as int);
        lemma_mul_bound(py as int, dy as int, PLANAR_ABS_MAX_MM as int,
            2 * PLANAR_ABS_MAX_MM as int);
        lemma_mul_bound(x as int, dx as int, PLANAR_ABS_MAX_MM as int,
            2 * PLANAR_ABS_MAX_MM as int);
        lemma_mul_bound(y as int, dy as int, PLANAR_ABS_MAX_MM as int,
            2 * PLANAR_ABS_MAX_MM as int);
        lemma_mul_bound(px as int, y as int, PLANAR_ABS_MAX_MM as int,
            PLANAR_ABS_MAX_MM as int);
        lemma_mul_bound(py as int, x as int, PLANAR_ABS_MAX_MM as int,
            PLANAR_ABS_MAX_MM as int);
    }
    let t_prev = px * dx + py * dy;
    let t_cur = x * dx + y * dy;
    if (t_prev >= 0 && t_cur <= 0) || (t_prev <= 0 && t_cur >= 0) {
        let cross = px * y - py * x;
        let num: u128 = if cross < 0 {
            (-cross) as u128
        } else {
            cross as u128
        };
        proof {
            lemma_sq_bound(dx as int, 2 * PLANAR_ABS_MAX_MM as int);
            lemma_sq_bound(dy as int, 2 * PLANAR_ABS_MAX_MM as int);
            assert(0 < dx * dx + dy * dy) by (nonlinear_arith)
                requires
                    !(dx == 0 && dy == 0),
            ;
        }
        let seg_sq = (dx * dx + dy * dy) as u128;
        let seg_len = isqrt(seg_sq);
        proof {
            lemma_isqrt_bounds(seg_sq as nat);
            if seg_len == 0 {
                assert((seg_sq as nat) < 1) by (nonlinear_arith)
                    requires
                        (seg_sq as nat) < (isqrt_spec(seg_sq as nat) + 1) * (isqrt_spec(
                            seg_sq as nat,
                        ) + 1),
                        isqrt_spec(seg_sq as nat) == 0,
                ;
            }
        }
        num / seg_len
    } else {
        point_distance(cur)
    }
}

} // verus!
