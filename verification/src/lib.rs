//! An artificial-life particle simulation.
//!
//! A population of point particles is partitioned into colour-tagged groups.
//! A directed rule matrix between groups drives attraction and repulsion
//! forces; particles age, die, and may spawn offspring when two particles of
//! interacting groups meet at the same spot, to the nearest unit. All coordinates,
//! velocities and force coefficients are fixed-point integers in
//! thousandths of a world unit, so that every step of the simulation is
//! plain integer arithmetic.

pub mod force;
pub mod life_grid;
pub mod math;
pub mod organism;
pub mod particle;
pub mod particle_group;
pub mod pixel;
pub mod resource;
pub mod rng;
pub mod rule;
pub mod sim_grid;
pub mod store;
pub mod tile;
