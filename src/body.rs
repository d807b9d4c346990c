//! Bodies and the rules that act on one body or on one pair of bodies.
use crate::arith::{
    clamp, clamp_value, div_toward_zero, div_trunc, isqrt, is_root, lemma_div_bounds,
    lemma_root_exists,
    lemma_div_trunc_bound, lemma_div_trunc_error, sqrt_floor, AREA_LIMIT, DT_LIMIT, GRAVITY,
    MASS_LIMIT, SCALE, VALUE_LIMIT,
};
use vstd::prelude::*;

verus! {

/// A 2D vector in fixed-point units (`SCALE` units make one).
#[derive(Clone, Copy, Debug, PartialEq, Eq, Structural)]
pub struct Vec2 {
    pub x: i64,
    pub y: i64,
}

/// A colour as three 8-bit channels.
#[derive(Clone, Copy, Debug, PartialEq, Eq, Structural)]
pub struct Rgb {
    pub r: u8,
    pub g: u8,
    pub b: u8,
}

/// A circular point mass.
///
/// `merged` is set on both participants of a merge in the current frame and
/// `survivor` on the one that carries the merged body; a body with `merged`
/// and without `survivor` was consumed and leaves at compaction.
#[derive(Clone, Copy, Debug, PartialEq, Eq, Structural)]
pub struct Body {
    pub position: Vec2,
    pub velocity: Vec2,
    pub colour: Rgb,
    pub radius: u64,
    pub mass: u64,
    pub merged: bool,
    pub survivor: bool,
}

/// Both components lie within `[-VALUE_LIMIT, VALUE_LIMIT]`.
pub open spec fn vec_in_range(v: Vec2) -> bool {
    -VALUE_LIMIT <= v.x <= VALUE_LIMIT && -VALUE_LIMIT <= v.y <= VALUE_LIMIT
}

/// The limits every body keeps: positive radius and mass, components in range.
pub open spec fn body_wf(b: Body) -> bool {
    &&& vec_in_range(b.position)
    &&& vec_in_range(b.velocity)
    &&& 0 < b.radius
    &&& b.radius * b.radius <= AREA_LIMIT
    &&& 0 < b.mass <= MASS_LIMIT
}

/// The body was consumed by a merge this frame.
pub open spec fn consumed(b: Body) -> bool {
    b.merged && !b.survivor
}

/// Squared distance between the centres of two bodies.
pub open spec fn dist_sq(a: Body, b: Body) -> int {
    let dx = b.position.x - a.position.x;
    let dy = b.position.y - a.position.y;
    dx * dx + dy * dy
}

/// The disks overlap: the distance between the centres is below the sum of
/// the radii (compared squared, as both sides are non-negative).
pub open spec fn collides(a: Body, b: Body) -> bool {
    dist_sq(a, b) < (a.radius + b.radius) * (a.radius + b.radius)
}

/// The gravity pull per unit of displacement, before it is divided by the cube
/// of the distance: `GRAVITY * mass * dt * SCALE^2` in fixed-point units.
pub open spec fn pull_factor(mass: int, dt: int) -> int {
    GRAVITY * mass * dt * (SCALE * SCALE)
}

/// The magnitude of `k * d / cube`, rounded down, before it is held to the limit.
pub open spec fn pull_magnitude(k: int, d: int, cube: int) -> int {
    if d >= 0 {
        k * d / cube
    } else {
        k * (-d) / cube
    }
}

/// One component of a velocity change: `k * d / cube` rounded toward zero,
/// its magnitude held to `VALUE_LIMIT`.
pub open spec fn pull_component(k: int, d: int, cube: int) -> int {
    let mag = pull_magnitude(k, d, cube);
    let held = if mag > VALUE_LIMIT { VALUE_LIMIT as int } else { mag };
    if d >= 0 { held } else { -held }
}

/// The velocity change that `b` gives `a` in a frame of `dt`:
/// `GRAVITY * mass_b * dt * d / |d|^3` with `d` the displacement from `a` to `b`.
/// Coincident bodies give none, as their direction is undefined.
pub open spec fn pull_on(a: Body, b: Body, dt: int) -> (int, int) {
    let dx = b.position.x - a.position.x;
    let dy = b.position.y - a.position.y;
    let r2 = dx * dx + dy * dy;
    if r2 == 0 {
        (0, 0)
    } else {
        let cube = r2 * sqrt_floor(r2);
        let k = pull_factor(b.mass as int, dt);
        (pull_component(k, dx, cube), pull_component(k, dy, cube))
    }
}

/// The pull of `b` on `a` over `dt` is within the component limit on both
/// axes, so that no part of it was held back.
pub open spec fn pull_unheld(a: Body, b: Body, dt: int) -> bool {
    let dx = b.position.x - a.position.x;
    let dy = b.position.y - a.position.y;
    let r2 = dx * dx + dy * dy;
    let cube = r2 * sqrt_floor(r2);
    let k = pull_factor(b.mass as int, dt);
    r2 != 0 ==> pull_magnitude(k, dx, cube) <= VALUE_LIMIT && pull_magnitude(k, dy, cube)
        <= VALUE_LIMIT
}

/// Mass-weighted blend of two colour channels, rounded down.
pub open spec fn blend_channel(ca: u8, ma: int, cb: u8, mb: int) -> int {
    (ca * ma + cb * mb) / (ma + mb)
}

/// The body that `a` becomes when it absorbs `b`: summed mass, momentum and
/// area, mass-weighted position and colour, marked as the survivor of a merge.
pub open spec fn merged_body(a: Body, b: Body) -> Body {
    let ma = a.mass as int;
    let mb = b.mass as int;
    let m = ma + mb;
    Body {
        position: Vec2 {
            x: div_trunc(ma * a.position.x + mb * b.position.x, m) as i64,
            y: div_trunc(ma * a.position.y + mb * b.position.y, m) as i64,
        },
        velocity: Vec2 {
            x: div_trunc(ma * a.velocity.x + mb * b.velocity.x, m) as i64,
            y: div_trunc(ma * a.velocity.y + mb * b.velocity.y, m) as i64,
        },
        colour: Rgb {
            r: blend_channel(a.colour.r, ma, b.colour.r, mb) as u8,
            g: blend_channel(a.colour.g, ma, b.colour.g, mb) as u8,
            b: blend_channel(a.colour.b, ma, b.colour.b, mb) as u8,
        },
        radius: sqrt_floor(a.radius * a.radius + b.radius * b.radius) as u64,
        mass: (ma + mb) as u64,
        merged: true,
        survivor: true,
    }
}

/// The body after it moved for `dt` at its velocity.
pub open spec fn moved_body(b: Body, dt: int) -> Body {
    Body {
        position: Vec2 {
            x: clamp_value(b.position.x + div_trunc(b.velocity.x * dt, SCALE as int)) as i64,
            y: clamp_value(b.position.y + div_trunc(b.velocity.y * dt, SCALE as int)) as i64,
        },
        ..b
    }
}

/// A product of two bounded non-negative numbers is bounded by the product of the bounds.
pub proof fn lemma_mul_le(a: int, b: int, c: int, d: int)
    requires
        0 <= a <= c,
        0 <= b <= d,
    ensures
        a * b <= c * d,
{
    assert(a * b <= c * d) by (nonlinear_arith)
        requires
            0 <= a <= c,
            0 <= b <= d,
    ;
}

/// A square is bounded by the square of a bound on the magnitude.
pub proof fn lemma_sq_le(a: int, b: int)
    requires
        -b <= a <= b,
    ensures
        0 <= a * a <= b * b,
{
    assert(0 <= a * a <= b * b) by (nonlinear_arith)
        requires
            -b <= a <= b,
    ;
}

/// Whether the disks of `a` and `b` overlap.
pub fn colliding(a: &Body, b: &Body) -> (r: bool)
    requires
        body_wf(*a),
        body_wf(*b),
    ensures
        r == collides(*a, *b),
{
    let dx: i128 = b.position.x as i128 - a.position.x as i128;
    let dy: i128 = b.position.y as i128 - a.position.y as i128;
    proof {
        lemma_sq_le(dx as int, 2 * VALUE_LIMIT);
        lemma_sq_le(dy as int, 2 * VALUE_LIMIT);
    }
    let sum: i128 = a.radius as i128 + b.radius as i128;
    assert(a.radius <= 1_000_000_000) by (nonlinear_arith)
        requires
            a.radius * a.radius <= AREA_LIMIT,
    ;
    assert(b.radius <= 1_000_000_000) by (nonlinear_arith)
        requires
            b.radius * b.radius <= AREA_LIMIT,
    ;
    proof {
        lemma_mul_le(sum as int, sum as int, 2_000_000_000, 2_000_000_000);
    }
    dx * dx + dy * dy < sum * sum
}

/// One component of a velocity change, as `pull_component` states it.
fn pull_part(k: u128, d: i128, cube: u128) -> (r: i64)
    requires
        k <= 1_000_000_000_000_000_000_000_000,
        -2 * VALUE_LIMIT <= d <= 2 * VALUE_LIMIT,
        cube > 0,
    ensures
        r == pull_component(k as int, d as int, cube as int),
{
    let ad: u128 = if d >= 0 { d as u128 } else { (-d) as u128 };
    proof {
        lemma_mul_le(k as int, ad as int, 1_000_000_000_000_000_000_000_000, 2 * VALUE_LIMIT);
    }
    let mag: u128 = k * ad / cube;
    let held: i64 = if mag > VALUE_LIMIT as u128 { VALUE_LIMIT } else { mag as i64 };
    if d >= 0 { held } else { -held }
}

/// The velocity change that `b`'s attraction gives `a` in a frame of `dt`.
pub fn pull(a: &Body, b: &Body, dt: u64) -> (r: Vec2)
    requires
        body_wf(*a),
        body_wf(*b),
        dt <= DT_LIMIT,
    ensures
        r.x == pull_on(*a, *b, dt as int).0,
        r.y == pull_on(*a, *b, dt as int).1,
        vec_in_range(r),
{
    let dx: i128 = b.position.x as i128 - a.position.x as i128;
    let dy: i128 = b.position.y as i128 - a.position.y as i128;
    proof {
        lemma_sq_le(dx as int, 2 * VALUE_LIMIT);
        lemma_sq_le(dy as int, 2 * VALUE_LIMIT);
    }
    let r2: u128 = (dx * dx + dy * dy) as u128;
    if r2 == 0 {
        return Vec2 { x: 0, y: 0 };
    }
    let root: u128 = isqrt(r2);
    assert(root <= 3_000_000_000_000) by (nonlinear_arith)
        requires
            root * root <= r2,
            r2 <= 8_000_000_000_000_000_000_000_000,
    ;
    assert(root >= 1) by (nonlinear_arith)
        requires
            r2 < (root + 1) * (root + 1),
            r2 >= 1,
            root >= 0,
    ;
    proof {
        lemma_mul_le(r2 as int, root as int, 8_000_000_000_000_000_000_000_000, 3_000_000_000_000);
        assert(r2 * root >= 1) by (nonlinear_arith)
            requires
                r2 >= 1,
                root >= 1,
        ;
        lemma_mul_le(GRAVITY as int, b.mass as int, GRAVITY as int, MASS_LIMIT as int);
        lemma_mul_le(
            GRAVITY * b.mass,
            dt as int,
            GRAVITY * MASS_LIMIT,
            DT_LIMIT as int,
        );
        lemma_mul_le(
            GRAVITY * b.mass * dt,
            SCALE * SCALE,
            GRAVITY * MASS_LIMIT * DT_LIMIT,
            SCALE * SCALE,
        );
    }
    let cube: u128 = r2 * root;
    let k: u128 = GRAVITY as u128 * b.mass as u128 * dt as u128 * (SCALE as u128 * SCALE as u128);
    Vec2 { x: pull_part(k, dx, cube), y: pull_part(k, dy, cube) }
}

/// Mass-weighted mean of two components, rounded toward zero.
fn blend(ma: u64, xa: i64, mb: u64, xb: i64) -> (r: i64)
    requires
        0 < ma,
        0 < mb,
        ma + mb <= MASS_LIMIT,
        -VALUE_LIMIT <= xa <= VALUE_LIMIT,
        -VALUE_LIMIT <= xb <= VALUE_LIMIT,
    ensures
        r == div_trunc(ma * xa + mb * xb, ma + mb),
        -VALUE_LIMIT <= r <= VALUE_LIMIT,
{
    let ghost l = VALUE_LIMIT as int;
    assert(-(ma * l) <= ma * xa <= ma * l) by (nonlinear_arith)
        requires
            0 < ma,
            -l <= xa <= l,
    ;
    assert(-(mb * l) <= mb * xb <= mb * l) by (nonlinear_arith)
        requires
            0 < mb,
            -l <= xb <= l,
    ;
    proof {
        lemma_mul_le(ma as int, l, MASS_LIMIT as int, l);
        lemma_mul_le(mb as int, l, MASS_LIMIT as int, l);
    }
    let n: i128 = ma as i128 * xa as i128 + mb as i128 * xb as i128;
    let m: u128 = ma as u128 + mb as u128;
    proof {
        assert(-(ma + mb) * l <= n <= (ma + mb) * l) by (nonlinear_arith)
            requires
                n == ma * xa + mb * xb,
                -(ma * l) <= ma * xa <= ma * l,
                -(mb * l) <= mb * xb <= mb * l,
        ;
        lemma_div_trunc_bound(n as int, m as int, l);
    }
    div_toward_zero(n, m) as i64
}

/// Mass-weighted mean of two colour channels, rounded down.
fn blend_colour(ca: u8, ma: u64, cb: u8, mb: u64) -> (r: u8)
    requires
        0 < ma,
        0 < mb,
        ma + mb <= MASS_LIMIT,
    ensures
        r == blend_channel(ca, ma as int, cb, mb as int),
{
    proof {
        lemma_mul_le(ca as int, ma as int, 255, MASS_LIMIT as int);
        lemma_mul_le(cb as int, mb as int, 255, MASS_LIMIT as int);
    }
    let n: u128 = ca as u128 * ma as u128 + cb as u128 * mb as u128;
    let m: u128 = ma as u128 + mb as u128;
    let q: u128 = n / m;
    proof {
        lemma_div_bounds(n as int, m as int);
        lemma_mul_le(ca as int, ma as int, 255, ma as int);
        lemma_mul_le(cb as int, mb as int, 255, mb as int);
        assert(q <= 255) by (nonlinear_arith)
            requires
                m * q <= n,
                n <= 255 * ma + 255 * mb,
                m == ma + mb,
                m > 0,
        ;
    }
    q as u8
}

/// Merges `b` into `a`: the result carries the summed mass, momentum and area,
/// the mass-weighted position and colour, and is marked as a merge's survivor.
pub fn merge(a: &Body, b: &Body) -> (r: Body)
    requires
        body_wf(*a),
        body_wf(*b),
        a.mass + b.mass <= MASS_LIMIT,
        a.radius * a.radius + b.radius * b.radius <= AREA_LIMIT,
    ensures
        r == merged_body(*a, *b),
        body_wf(r),
        r.mass == a.mass + b.mass,
        -r.mass < r.mass * r.velocity.x - (a.mass * a.velocity.x + b.mass * b.velocity.x) < r.mass,
        -r.mass < r.mass * r.velocity.y - (a.mass * a.velocity.y + b.mass * b.velocity.y) < r.mass,
        is_root(a.radius * a.radius + b.radius * b.radius, r.radius as int),
{
    let ma = a.mass;
    let mb = b.mass;
    assert(a.radius * a.radius >= 1 && b.radius * b.radius >= 1) by (nonlinear_arith)
        requires
            a.radius >= 1,
            b.radius >= 1,
    ;
    let area: u128 = a.radius as u128 * a.radius as u128 + b.radius as u128 * b.radius as u128;
    let radius: u128 = isqrt(area);
    assert(radius >= 1) by (nonlinear_arith)
        requires
            area < (radius + 1) * (radius + 1),
            area >= 2,
            radius >= 0,
    ;
    let r = Body {
        position: Vec2 {
            x: blend(ma, a.position.x, mb, b.position.x),
            y: blend(ma, a.position.y, mb, b.position.y),
        },
        velocity: Vec2 {
            x: blend(ma, a.velocity.x, mb, b.velocity.x),
            y: blend(ma, a.velocity.y, mb, b.velocity.y),
        },
        colour: Rgb {
            r: blend_colour(a.colour.r, ma, b.colour.r, mb),
            g: blend_colour(a.colour.g, ma, b.colour.g, mb),
            b: blend_colour(a.colour.b, ma, b.colour.b, mb),
        },
        radius: radius as u64,
        mass: ma + mb,
        merged: true,
        survivor: true,
    };
    proof {
        let m = (ma + mb) as int;
        lemma_div_trunc_error(ma * a.velocity.x + mb * b.velocity.x, m);
        lemma_div_trunc_error(ma * a.velocity.y + mb * b.velocity.y, m);
    }
    r
}

/// Advances `b`'s position by its velocity over `dt`.
pub fn advance(b: &Body, dt: u64) -> (r: Body)
    requires
        body_wf(*b),
        dt <= DT_LIMIT,
    ensures
        r == moved_body(*b, dt as int),
        body_wf(r),
{
    proof {
        lemma_mul_le(
            if b.velocity.x >= 0 { b.velocity.x as int } else { -b.velocity.x },
            dt as int,
            VALUE_LIMIT as int,
            DT_LIMIT as int,
        );
        lemma_mul_le(
            if b.velocity.y >= 0 { b.velocity.y as int } else { -b.velocity.y },
            dt as int,
            VALUE_LIMIT as int,
            DT_LIMIT as int,
        );
    }
    assert(-1_000_000_000_000_000_000 <= b.velocity.x * dt <= 1_000_000_000_000_000_000) by (nonlinear_arith)
        requires
            -VALUE_LIMIT <= b.velocity.x <= VALUE_LIMIT,
            0 <= dt <= DT_LIMIT,
    ;
    assert(-1_000_000_000_000_000_000 <= b.velocity.y * dt <= 1_000_000_000_000_000_000) by (nonlinear_arith)
        requires
            -VALUE_LIMIT <= b.velocity.y <= VALUE_LIMIT,
            0 <= dt <= DT_LIMIT,
    ;
    let sx: i128 = div_toward_zero(b.velocity.x as i128 * dt as i128, SCALE as u128);
    let sy: i128 = div_toward_zero(b.velocity.y as i128 * dt as i128, SCALE as u128);
    proof {
        lemma_div_trunc_bound(b.velocity.x * dt, SCALE as int, 1_000_000_000_000_000);
        lemma_div_trunc_bound(b.velocity.y * dt, SCALE as int, 1_000_000_000_000_000);
    }
    Body {
        position: Vec2 {
            x: clamp(b.position.x as i128 + sx),
            y: clamp(b.position.y as i128 + sy),
        },
        ..*b
    }
}

/// One axis of the pulls within a pair, each rounded toward zero: the
/// momenta they carry cancel to within the rounding.
proof fn lemma_opposite_parts(ma: int, mb: int, dt: int, d: int, c: int)
    requires
        ma > 0,
        mb > 0,
        dt >= 0,
        c > 0,
        pull_magnitude(pull_factor(mb, dt), d, c) <= VALUE_LIMIT,
        pull_magnitude(pull_factor(ma, dt), -d, c) <= VALUE_LIMIT,
    ensures
        -(ma + mb) < ma * pull_component(pull_factor(mb, dt), d, c) + mb * pull_component(
            pull_factor(ma, dt),
            -d,
            c,
        ) < ma + mb,
{
    let ka = pull_factor(mb, dt);
    let kb = pull_factor(ma, dt);
    let ad = if d >= 0 { d } else { -d };
    assert(ka >= 0 && kb >= 0) by (nonlinear_arith)
        requires
            ka == GRAVITY * mb * dt * (SCALE * SCALE),
            kb == GRAVITY * ma * dt * (SCALE * SCALE),
            ma > 0,
            mb > 0,
            dt >= 0,
    ;
    assert(ma * ka == mb * kb) by (nonlinear_arith)
        requires
            ka == GRAVITY * mb * dt * (SCALE * SCALE),
            kb == GRAVITY * ma * dt * (SCALE * SCALE),
    ;
    assert(ka * ad >= 0 && kb * ad >= 0) by (nonlinear_arith)
        requires
            ka >= 0,
            kb >= 0,
            ad >= 0,
    ;
    let qa = ka * ad / c;
    let qb = kb * ad / c;
    lemma_div_bounds(ka * ad, c);
    lemma_div_bounds(kb * ad, c);
    assert(pull_magnitude(ka, d, c) == qa);
    assert(pull_magnitude(kb, -d, c) == qb);
    assert(-ma < ma * qa - mb * qb < mb) by (nonlinear_arith)
        requires
            c > 0,
            ma > 0,
            mb > 0,
            c * qa <= ka * ad < c * qa + c,
            c * qb <= kb * ad < c * qb + c,
            ma * ka == mb * kb,
    ;
    let pa = pull_component(ka, d, c);
    let pb = pull_component(kb, -d, c);
    if d > 0 {
        assert(pa == qa && pb == -qb);
        assert(ma * pa + mb * pb == ma * qa - mb * qb) by (nonlinear_arith)
            requires
                pa == qa,
                pb == -qb,
        ;
    } else if d < 0 {
        assert(pa == -qa && pb == qb);
        assert(ma * pa + mb * pb == -(ma * qa - mb * qb)) by (nonlinear_arith)
            requires
                pa == -qa,
                pb == qb,
        ;
    } else {
        assert(ka * ad == 0 && kb * ad == 0) by (nonlinear_arith)
            requires
                ad == 0,
        ;
        assert(qa == 0 && qb == 0);
        assert(pa == 0 && pb == 0);
        assert(ma * pa + mb * pb == 0) by (nonlinear_arith)
            requires
                pa == 0,
                pb == 0,
        ;
    }
}

/// Within a pair, the velocity changes that gravity gives the two bodies
/// carry opposite momenta: on each axis `mass_a * dv_a + mass_b * dv_b` is
/// zero up to the rounding of the two changes, wherever neither change was
/// held to the component limit.
pub proof fn lemma_pull_momentum(a: Body, b: Body, dt: int)
    requires
        body_wf(a),
        body_wf(b),
        0 <= dt <= DT_LIMIT,
        pull_unheld(a, b, dt),
        pull_unheld(b, a, dt),
    ensures
        -(a.mass + b.mass) < a.mass * pull_on(a, b, dt).0 + b.mass * pull_on(b, a, dt).0 < a.mass
            + b.mass,
        -(a.mass + b.mass) < a.mass * pull_on(a, b, dt).1 + b.mass * pull_on(b, a, dt).1 < a.mass
            + b.mass,
{
    let dx = b.position.x - a.position.x;
    let dy = b.position.y - a.position.y;
    let r2 = dx * dx + dy * dy;
    assert((-dx) * (-dx) + (-dy) * (-dy) == r2 && r2 >= 0) by (nonlinear_arith)
        requires
            r2 == dx * dx + dy * dy,
    ;
    if r2 != 0 {
        lemma_root_exists(r2);
        let root = sqrt_floor(r2);
        assert(root >= 1) by (nonlinear_arith)
            requires
                r2 < (root + 1) * (root + 1),
                r2 >= 1,
                root >= 0,
        ;
        assert(r2 * root > 0) by (nonlinear_arith)
            requires
                r2 >= 1,
                root >= 1,
        ;
        let c = r2 * root;
        let ka = pull_factor(b.mass as int, dt);
        let kb = pull_factor(a.mass as int, dt);
        let ex = a.position.x - b.position.x;
        let ey = a.position.y - b.position.y;
        assert(ex == -dx && ey == -dy);
        assert(ex * ex + ey * ey == r2);
        assert(pull_on(a, b, dt) == (pull_component(ka, dx, c), pull_component(ka, dy, c)));
        assert(pull_on(b, a, dt) == (pull_component(kb, -dx, c), pull_component(kb, -dy, c)));
        assert(pull_magnitude(kb, -dx, c) <= VALUE_LIMIT);
        lemma_opposite_parts(a.mass as int, b.mass as int, dt, dx, c);
        lemma_opposite_parts(a.mass as int, b.mass as int, dt, dy, c);
    } else {
        assert(pull_on(a, b, dt) == (0int, 0int));
        assert(pull_on(b, a, dt) == (0int, 0int));
        let (pa, pb) = (pull_on(a, b, dt), pull_on(b, a, dt));
        assert(a.mass * pa.0 + b.mass * pb.0 == 0 && a.mass * pa.1 + b.mass * pb.1 == 0)
            by (nonlinear_arith)
            requires
                pa == (0int, 0int),
                pb == (0int, 0int),
        ;
    }
}

} // verus!
