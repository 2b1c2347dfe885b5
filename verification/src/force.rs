//! The force evaluator: the radial inverse-distance law between two
//! particles, and its accumulation over a whole neighbour group.
//!
//! For particles `p` and `q` at fixed-point distance `d` (thousandths of a
//! unit), a rule coefficient `g` (thousandths, drawn in `[0, SCALE)`)
//! contributes `g * (p.pos - q.pos) / d` to the force on `p`, but only when
//! `0 < d < cutoff`: coincident particles and particles at or beyond the
//! cutoff radius contribute nothing. All quotients round toward zero.

use vstd::prelude::*;
use vstd::math::abs;

use crate::math::MAX_RADICAND;
use crate::math::isqrt;
use crate::math::lemma_sqrt_floor_is_sqrt;
use crate::math::lemma_sqrt_floor_monotone;
use crate::math::lemma_sqrt_floor_square;
use crate::math::sqrt_floor;
use crate::particle::MAX_FORCE;
use crate::particle::MAX_NEIGHBOURS;
use crate::particle::MAX_WORLD;
use crate::particle::Particle;
use crate::particle::SCALE;

verus! {

/// The fixed-point distance between two particles: the floor square root of
/// the squared distance in thousandths of a unit.
pub open spec fn dist_milli(p: Particle, q: Particle) -> int {
    let dx = p.x - q.x;
    let dy = p.y - q.y;
    sqrt_floor((dx * dx + dy * dy) as nat) as int
}

/// The x component of the force one neighbour `q` exerts on `p` under
/// coefficient `g`, in thousandths of a unit per tick.
pub open spec fn pair_force_x(p: Particle, q: Particle, g: int, cutoff_milli: int) -> int {
    let dx = p.x - q.x;
    let d = dist_milli(p, q);
    if 0 < d < cutoff_milli {
        if dx >= 0 {
            (g * dx) / d
        } else {
            -((g * -dx) / d)
        }
    } else {
        0
    }
}

pub open spec fn pair_force_y(p: Particle, q: Particle, g: int, cutoff_milli: int) -> int {
    let dy = p.y - q.y;
    let d = dist_milli(p, q);
    if 0 < d < cutoff_milli {
        if dy >= 0 {
            (g * dy) / d
        } else {
            -((g * -dy) / d)
        }
    } else {
        0
    }
}

/// The x component of the net force a whole neighbour group exerts on `p`.
pub open spec fn net_force_x(p: Particle, qs: Seq<Particle>, g: int, cutoff_milli: int) -> int
    decreases qs.len(),
{
    if qs.len() == 0 {
        0
    } else {
        net_force_x(p, qs.drop_last(), g, cutoff_milli) + pair_force_x(
            p,
            qs.last(),
            g,
            cutoff_milli,
        )
    }
}

pub open spec fn net_force_y(p: Particle, qs: Seq<Particle>, g: int, cutoff_milli: int) -> int
    decreases qs.len(),
{
    if qs.len() == 0 {
        0
    } else {
        net_force_y(p, qs.drop_last(), g, cutoff_milli) + pair_force_y(
            p,
            qs.last(),
            g,
            cutoff_milli,
        )
    }
}

/// The distance of a particle from itself, or from any particle at the same
/// exact position, is zero; and a component offset never exceeds the
/// distance.
proof fn lemma_component_le_dist(p: Particle, q: Particle)
    ensures
        abs(p.x - q.x) <= dist_milli(p, q),
        abs(p.y - q.y) <= dist_milli(p, q),
{
    let dx = p.x - q.x;
    let dy = p.y - q.y;
    let adx = abs(dx);
    let ady = abs(dy);
    assert(adx * adx == dx * dx) by (nonlinear_arith)
        requires
            adx == dx || adx == -dx,
    ;
    assert(ady * ady == dy * dy) by (nonlinear_arith)
        requires
            ady == dy || ady == -dy,
    ;
    assert(dx * dx >= 0 && dy * dy >= 0) by (nonlinear_arith);
    lemma_sqrt_floor_square(adx as nat);
    lemma_sqrt_floor_square(ady as nat);
    lemma_sqrt_floor_monotone((adx * adx) as nat, (dx * dx + dy * dy) as nat);
    lemma_sqrt_floor_monotone((ady * ady) as nat, (dx * dx + dy * dy) as nat);
}

/// One force term never reaches `SCALE` in magnitude when the coefficient
/// stays below `SCALE`.
pub proof fn lemma_pair_force_bound(p: Particle, q: Particle, g: int, cutoff_milli: int)
    requires
        0 <= g < SCALE,
    ensures
        -SCALE < pair_force_x(p, q, g, cutoff_milli) < SCALE,
        -SCALE < pair_force_y(p, q, g, cutoff_milli) < SCALE,
{
    let d = dist_milli(p, q);
    if 0 < d < cutoff_milli {
        lemma_component_le_dist(p, q);
        lemma_abs_quotient_le_g(p.x - q.x, d, g);
        lemma_abs_quotient_le_g(p.y - q.y, d, g);
    }
}

/// `0 <= (g * |c|) / d <= g` whenever `|c| <= d` and `d >= 1`.
proof fn lemma_abs_quotient_le_g(c: int, d: int, g: int)
    requires
        0 <= g,
        1 <= d,
        abs(c) <= d,
    ensures
        0 <= (g * abs(c)) / d <= g,
{
    let a = abs(c);
    assert(g * a <= g * d) by (nonlinear_arith)
        requires
            0 <= g && a <= d,
    ;
    assert(g * a >= 0) by (nonlinear_arith)
        requires
            0 <= g && 0 <= a,
    ;
    vstd::arithmetic::div_mod::lemma_div_is_ordered(g * a, g * d, d);
    vstd::arithmetic::div_mod::lemma_div_by_multiple(g, d);
    assert(g * d == d * g) by (nonlinear_arith);
    vstd::arithmetic::div_mod::lemma_div_pos_is_pos(g * a, d);
}

/// The cutoff law. Two particles exactly at the cutoff distance (or
/// beyond, or coincident) contribute no force at all. Strictly inside the
/// cutoff, a force component is nonzero exactly when the scaled component
/// offset reaches the distance; in particular `g = 0` never produces a
/// force, and a coefficient of at least `SCALE - 1` produces a nonzero
/// force on the dominant axis of any non-coincident pair inside the cutoff.
pub proof fn lemma_cutoff_force(p: Particle, q: Particle, g: int, cutoff_milli: int)
    requires
        0 <= g < SCALE,
    ensures
        dist_milli(p, q) >= cutoff_milli ==> pair_force_x(p, q, g, cutoff_milli) == 0
            && pair_force_y(p, q, g, cutoff_milli) == 0,
        dist_milli(p, q) == 0 ==> pair_force_x(p, q, g, cutoff_milli) == 0 && pair_force_y(
            p,
            q,
            g,
            cutoff_milli,
        ) == 0,
        0 < dist_milli(p, q) < cutoff_milli ==> (pair_force_x(p, q, g, cutoff_milli) != 0 <==> g
            * abs(p.x - q.x) >= dist_milli(p, q)),
        0 < dist_milli(p, q) < cutoff_milli ==> (pair_force_y(p, q, g, cutoff_milli) != 0 <==> g
            * abs(p.y - q.y) >= dist_milli(p, q)),
{
    let d = dist_milli(p, q);
    if 0 < d < cutoff_milli {
        lemma_cutoff_component(p.x - q.x, d, g);
        lemma_cutoff_component(p.y - q.y, d, g);
    }
}

/// Inside the cutoff, a signed quotient toward zero is nonzero exactly when
/// the scaled magnitude reaches the denominator.
proof fn lemma_cutoff_component(c: int, d: int, g: int)
    requires
        0 <= g,
        1 <= d,
    ensures
        (if c >= 0 {
            (g * c) / d
        } else {
            -((g * -c) / d)
        }) != 0 <==> g * abs(c) >= d,
{
    let a = abs(c);
    assert(g * a >= 0) by (nonlinear_arith)
        requires
            0 <= g && 0 <= a,
    ;
    if g * a >= d {
        vstd::arithmetic::div_mod::lemma_div_non_zero(g * a, d);
    } else {
        vstd::arithmetic::div_mod::lemma_basic_div(g * a, d);
    }
    if c >= 0 {
        assert(g * c == g * a);
    } else {
        assert(g * -c == g * a);
    }
}

/// Accumulates the net force a neighbour group exerts on one particle.
pub fn accumulate_force(p: &Particle, others: &Vec<Particle>, g: u32, cutoff_milli: i64) -> (f: (
    i64,
    i64,
))
    requires
        others@.len() <= MAX_NEIGHBOURS,
        g < SCALE,
        0 <= p.x <= MAX_WORLD as i64 * SCALE,
        0 <= p.y <= MAX_WORLD as i64 * SCALE,
        forall|i: int|
            0 <= i < others@.len() ==> 0 <= #[trigger] others@[i].x <= MAX_WORLD as i64 * SCALE
                && 0 <= others@[i].y <= MAX_WORLD as i64 * SCALE,
    ensures
        f.0 == net_force_x(*p, others@, g as int, cutoff_milli as int),
        f.1 == net_force_y(*p, others@, g as int, cutoff_milli as int),
        -(SCALE * others@.len() as int) <= f.0 <= SCALE * others@.len() as int,
        -(SCALE * others@.len() as int) <= f.1 <= SCALE * others@.len() as int,
        -MAX_FORCE <= f.0 <= MAX_FORCE,
        -MAX_FORCE <= f.1 <= MAX_FORCE,
{
    let mut fx: i64 = 0;
    let mut fy: i64 = 0;
    let mut j: usize = 0;
    while j < others.len()
        invariant
            0 <= j <= others@.len(),
            others@.len() <= MAX_NEIGHBOURS,
            g < SCALE,
            0 <= p.x <= MAX_WORLD as i64 * SCALE,
            0 <= p.y <= MAX_WORLD as i64 * SCALE,
            forall|i: int|
                0 <= i < others@.len() ==> 0 <= #[trigger] others@[i].x <= MAX_WORLD as i64 * SCALE
                    && 0 <= others@[i].y <= MAX_WORLD as i64 * SCALE,
            fx == net_force_x(*p, others@.take(j as int), g as int, cutoff_milli as int),
            fy == net_force_y(*p, others@.take(j as int), g as int, cutoff_milli as int),
            -(SCALE * j) <= fx <= SCALE * j,
            -(SCALE * j) <= fy <= SCALE * j,
        decreases others@.len() - j,
    {
        let q = others[j];
        let dx = p.x - q.x;
        let dy = p.y - q.y;
        proof {
            assert(dx * dx + dy * dy <= MAX_RADICAND) by (nonlinear_arith)
                requires
                    -(MAX_WORLD as i64 * SCALE) <= dx <= MAX_WORLD as i64 * SCALE,
                    -(MAX_WORLD as i64 * SCALE) <= dy <= MAX_WORLD as i64 * SCALE,
            ;
            assert(dx * dx >= 0 && dy * dy >= 0) by (nonlinear_arith);
        }
        let d2 = dx * dx + dy * dy;
        let d = isqrt(d2 as u64) as i64;
        proof {
            lemma_sqrt_floor_is_sqrt(d2 as nat);
            assert(d as int * (d as int) <= d2);
            assert(d == dist_milli(*p, q));
            lemma_pair_force_bound(*p, q, g as int, cutoff_milli as int);
        }
        if 0 < d && d < cutoff_milli {
            let adx = if dx >= 0 {
                dx
            } else {
                -dx
            };
            let ady = if dy >= 0 {
                dy
            } else {
                -dy
            };
            proof {
                lemma_component_le_dist(*p, q);
                lemma_abs_quotient_le_g(dx as int, d as int, g as int);
                lemma_abs_quotient_le_g(dy as int, d as int, g as int);
                assert(0 <= g as i64 * adx <= SCALE * (MAX_WORLD as i64 * SCALE))
                    by (nonlinear_arith)
                    requires
                        0 <= g < SCALE,
                        0 <= adx <= MAX_WORLD as i64 * SCALE,
                ;
                assert(0 <= g as i64 * ady <= SCALE * (MAX_WORLD as i64 * SCALE))
                    by (nonlinear_arith)
                    requires
                        0 <= g < SCALE,
                        0 <= ady <= MAX_WORLD as i64 * SCALE,
                ;
            }
            let tx = (g as i64 * adx) / d;
            let ty = (g as i64 * ady) / d;
            if dx >= 0 {
                fx = fx + tx;
            } else {
                fx = fx - tx;
            }
            if dy >= 0 {
                fy = fy + ty;
            } else {
                fy = fy - ty;
            }
        }
        proof {
            assert(others@.take(j as int + 1).drop_last() =~= others@.take(j as int));
            assert(others@.take(j as int + 1).last() == others@[j as int]);
            assert(SCALE * (j + 1) == SCALE * j + SCALE) by (nonlinear_arith);
        }
        j = j + 1;
    }
    proof {
        assert(others@.take(others@.len() as int) =~= others@);
        assert(SCALE * others@.len() <= MAX_FORCE) by (nonlinear_arith)
            requires
                others@.len() <= MAX_NEIGHBOURS,
        ;
    }
    (fx, fy)
}

} // verus!
