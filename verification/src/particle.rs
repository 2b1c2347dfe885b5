//! A single point particle: fixed-point position and velocity, a group
//! identity, a display colour, a birth rate and a remaining life force.
//!
//! Every coordinate is measured in thousandths of a world unit (`SCALE`).
//! Each group carries an explicit integer identity, assigned when the world
//! is seeded; the display colour is carried alongside it and plays no part
//! in the grouping.

use vstd::prelude::*;

use crate::math::tdiv;
use crate::math::div_trunc;
use crate::rng::draw_below;
use crate::rng::draw_range;

verus! {

/// Coordinates and velocities are measured in thousandths of a world unit.
pub const SCALE: i64 = 1000;

/// Largest admissible world edge, in whole units.
pub const MAX_WORLD: u32 = 100_000;

/// Hard cap on the magnitude of a velocity component, in thousandths of a
/// unit per tick. Damping by at least half keeps velocities below it from
/// one tick to the next as long as the accumulated force stays within
/// `MAX_FORCE`.
pub const MAX_SPEED: i64 = 0x4000_0000_0000_0000;

/// Hard cap on the magnitude of an accumulated force component. One force
/// term never exceeds `SCALE` per neighbour, so a whole tick's worth of
/// rules over a capped population stays within this bound.
pub const MAX_FORCE: i64 = 0x2000_0000_0000_0000;

/// Largest neighbour-set size a single force pass accepts; also the hard
/// cap on the population a world may hold.
pub const MAX_NEIGHBOURS: usize = 0x4000_0000;

/// A fresh particle's life force is drawn uniformly from
/// `[LIFE_MIN, LIFE_MAX)` ticks.
pub const LIFE_MIN: u32 = 50;
pub const LIFE_MAX: u32 = 100;

/// A damped velocity component stays within `MAX_SPEED` as long as the
/// incoming force component stays within `MAX_FORCE`.
pub proof fn lemma_damped_speed_bound(s: int, div: int)
    requires
        -(MAX_SPEED + MAX_FORCE) <= s <= MAX_SPEED + MAX_FORCE,
        div >= 2,
    ensures
        -MAX_SPEED <= tdiv(s, div) <= MAX_SPEED,
{
    crate::math::lemma_tdiv_bound(s, div, MAX_SPEED + MAX_FORCE);
    vstd::arithmetic::div_mod::lemma_div_is_ordered_by_denominator(
        MAX_SPEED + MAX_FORCE,
        2,
        div,
    );
    assert((MAX_SPEED + MAX_FORCE) / 2 <= MAX_SPEED);
}

#[derive(Clone, Copy, Debug)]
pub struct Particle {
    /// Index of the group this particle belongs to.
    pub group: usize,
    /// Position, in thousandths of a unit; kept within the world.
    pub x: i64,
    pub y: i64,
    /// Velocity, in thousandths of a unit per tick.
    pub vx: i64,
    pub vy: i64,
    /// Display colour, RGBA.
    pub colour_rgba: [u8; 4],
    /// How many children this particle spawns on a triggering overlap.
    pub birth_rate: u8,
    /// Remaining ticks; the particle is culled once this drops to zero.
    pub life_force: i32,
}

impl Particle {
    /// Position and velocity lie within the bounds the force and
    /// integration arithmetic relies on.
    pub open spec fn bounded(self, width_milli: int, height_milli: int) -> bool {
        &&& 0 <= self.x < width_milli
        &&& 0 <= self.y < height_milli
        &&& -MAX_SPEED <= self.vx <= MAX_SPEED
        &&& -MAX_SPEED <= self.vy <= MAX_SPEED
    }

    /// The whole-unit cell a particle occupies: its position truncated to
    /// units. This is the key the spatial store files it under.
    pub open spec fn cell_x(self) -> int
        recommends
            self.x >= 0,
    {
        self.x as int / SCALE as int
    }

    pub open spec fn cell_y(self) -> int
        recommends
            self.y >= 0,
    {
        self.y as int / SCALE as int
    }

    /// Two particles overlap when their positions agree to the nearest
    /// unit: the offset on each axis rounds to zero, that is, it is less
    /// than half a unit in magnitude. This is the trigger of the birth
    /// pass.
    pub open spec fn overlaps(self, other: Particle) -> bool {
        &&& -(SCALE / 2) < self.x - other.x < SCALE / 2
        &&& -(SCALE / 2) < self.y - other.y < SCALE / 2
    }

    /// A placeholder particle with no life force.
    pub fn empty() -> (p: Particle)
        ensures
            p.group == 0,
            p.x == 0 && p.y == 0 && p.vx == 0 && p.vy == 0,
            p.birth_rate == 0,
            p.life_force == 0,
    {
        Particle {
            group: 0,
            x: 0,
            y: 0,
            vx: 0,
            vy: 0,
            colour_rgba: [0, 0, 0, 0],
            birth_rate: 0,
            life_force: 0,
        }
    }

    /// A new particle with a freshly rolled life force.
    pub fn new(
        group: usize,
        x: i64,
        y: i64,
        vx: i64,
        vy: i64,
        colour_rgba: [u8; 4],
        birth_rate: u8,
        rng: &mut randomize::PCG32,
    ) -> (p: Particle)
        ensures
            p.group == group,
            p.x == x && p.y == y && p.vx == vx && p.vy == vy,
            p.colour_rgba == colour_rgba,
            p.birth_rate == birth_rate,
            LIFE_MIN <= p.life_force < LIFE_MAX,
    {
        let life = draw_range(rng, LIFE_MIN, LIFE_MAX);
        Particle { group, x, y, vx, vy, colour_rgba, birth_rate, life_force: life as i32 }
    }

    /// Redraws the display colour; the alpha channel stays fully opaque.
    pub fn randomise_pixel_colour(&mut self, rng: &mut randomize::PCG32)
        ensures
            final(self).colour_rgba[3] == 255,
            final(self).group == old(self).group,
            final(self).x == old(self).x && final(self).y == old(self).y,
            final(self).vx == old(self).vx && final(self).vy == old(self).vy,
            final(self).birth_rate == old(self).birth_rate,
            final(self).life_force == old(self).life_force,
    {
        let r = draw_below(rng, 255) as u8;
        let g = draw_below(rng, 255) as u8;
        let b = draw_below(rng, 255) as u8;
        self.colour_rgba = [r, g, b, 255];
    }

    pub open spec fn is_alive(self) -> bool {
        self.life_force > 0
    }

    /// Ages the particle by one tick and reports whether it is still alive.
    pub fn lifecycle(&mut self) -> (alive: bool)
        requires
            old(self).life_force > i32::MIN,
        ensures
            final(self).life_force == old(self).life_force - 1,
            final(self).group == old(self).group,
            final(self).x == old(self).x && final(self).y == old(self).y,
            final(self).vx == old(self).vx && final(self).vy == old(self).vy,
            final(self).colour_rgba == old(self).colour_rgba,
            final(self).birth_rate == old(self).birth_rate,
            alive == final(self).is_alive(),
    {
        self.life_force = self.life_force - 1;
        self.life_force > 0
    }

    /// How one integration step relates the particle before the step to the
    /// particle after it: the force is mixed into the velocity and damped by
    /// `damping_div` (rounding toward zero), the position moves by the new
    /// velocity, and a coordinate that would leave the world instead has its
    /// velocity reflected while the particle is placed at a uniformly drawn
    /// in-bounds coordinate on that axis (the boundary policy this library
    /// commits to).
    pub open spec fn integrated(
        self,
        after: Particle,
        fx: int,
        fy: int,
        width_milli: int,
        height_milli: int,
        damping_div: int,
    ) -> bool {
        let vx1 = tdiv(self.vx + fx, damping_div);
        let vy1 = tdiv(self.vy + fy, damping_div);
        let xt = self.x + vx1;
        let yt = self.y + vy1;
        &&& after.group == self.group
        &&& after.colour_rgba == self.colour_rgba
        &&& after.birth_rate == self.birth_rate
        &&& after.life_force == self.life_force
        &&& if 0 <= xt < width_milli {
            after.x == xt && after.vx == vx1
        } else {
            after.vx == -vx1 && 0 <= after.x < width_milli
        }
        &&& if 0 <= yt < height_milli {
            after.y == yt && after.vy == vy1
        } else {
            after.vy == -vy1 && 0 <= after.y < height_milli
        }
    }

    /// One integration step: mix the accumulated force into the velocity
    /// with damping, move, and apply the boundary policy.
    pub fn update_particle(
        &mut self,
        fx: i64,
        fy: i64,
        width_milli: i64,
        height_milli: i64,
        damping_div: i64,
        rng: &mut randomize::PCG32,
    )
        requires
            SCALE <= width_milli <= MAX_WORLD as i64 * SCALE,
            SCALE <= height_milli <= MAX_WORLD as i64 * SCALE,
            2 <= damping_div,
            old(self).bounded(width_milli as int, height_milli as int),
            -MAX_FORCE <= fx <= MAX_FORCE,
            -MAX_FORCE <= fy <= MAX_FORCE,
        ensures
            old(self).integrated(
                *final(self),
                fx as int,
                fy as int,
                width_milli as int,
                height_milli as int,
                damping_div as int,
            ),
            final(self).bounded(width_milli as int, height_milli as int),
    {
        proof {
            lemma_damped_speed_bound(old(self).vx + fx, damping_div as int);
            lemma_damped_speed_bound(old(self).vy + fy, damping_div as int);
        }
        let vx1 = div_trunc(self.vx + fx, damping_div);
        let vy1 = div_trunc(self.vy + fy, damping_div);
        let xt = self.x + vx1;
        let yt = self.y + vy1;
        if 0 <= xt && xt < width_milli {
            self.x = xt;
            self.vx = vx1;
        } else {
            self.vx = -vx1;
            let drawn = draw_below(rng, width_milli as u32);
            self.x = drawn as i64;
        }
        if 0 <= yt && yt < height_milli {
            self.y = yt;
            self.vy = vy1;
        } else {
            self.vy = -vy1;
            let drawn = draw_below(rng, height_milli as u32);
            self.y = drawn as i64;
        }
    }

    pub fn add_life_force(&mut self, life_force_to_add: i32)
        requires
            old(self).life_force + life_force_to_add <= i32::MAX,
            old(self).life_force + life_force_to_add >= i32::MIN,
        ensures
            final(self).life_force == old(self).life_force + life_force_to_add,
            final(self).group == old(self).group,
            final(self).x == old(self).x && final(self).y == old(self).y,
    {
        self.life_force = self.life_force + life_force_to_add;
    }

    pub fn reduce_life_force(&mut self, life_force_to_reduce: i32)
        requires
            old(self).life_force - life_force_to_reduce <= i32::MAX,
            old(self).life_force - life_force_to_reduce >= i32::MIN,
        ensures
            final(self).life_force == old(self).life_force - life_force_to_reduce,
            final(self).group == old(self).group,
            final(self).x == old(self).x && final(self).y == old(self).y,
    {
        self.life_force = self.life_force - life_force_to_reduce;
    }
}

} // verus!
