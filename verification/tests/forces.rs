use particle_life::force::accumulate_force;
use particle_life::particle::Particle;

fn at(x: i64, y: i64) -> Particle {
    Particle {
        group: 0,
        x,
        y,
        vx: 0,
        vy: 0,
        colour_rgba: [10, 20, 30, 255],
        birth_rate: 1,
        life_force: 50,
    }
}

#[test]
fn cutoff_exact_distance_contributes_nothing() {
    // Exactly 100 units apart, cutoff 100 units: no force at all.
    let p = at(0, 0);
    let others = vec![at(100_000, 0)];
    let f = accumulate_force(&p, &others, 999, 100_000);
    assert_eq!(f, (0, 0));
}

#[test]
fn just_inside_cutoff_contributes() {
    // 99.999 units apart: the scaled inverse-distance law gives 999 full
    // thousandths along the axis, pointing away from the neighbour.
    let p = at(0, 0);
    let others = vec![at(99_999, 0)];
    let f = accumulate_force(&p, &others, 999, 100_000);
    assert_eq!(f, (-999, 0));
}

#[test]
fn beyond_cutoff_contributes_nothing() {
    let p = at(0, 0);
    let others = vec![at(250_000, 0)];
    let f = accumulate_force(&p, &others, 999, 100_000);
    assert_eq!(f, (0, 0));
}

#[test]
fn zero_distance_contributes_nothing() {
    let p = at(42_000, 42_000);
    let others = vec![at(42_000, 42_000)];
    let f = accumulate_force(&p, &others, 999, 100_000);
    assert_eq!(f, (0, 0));
}

#[test]
fn zero_coefficient_no_force() {
    let p = at(0, 0);
    let others = vec![at(50_000, 0)];
    let f = accumulate_force(&p, &others, 0, 100_000);
    assert_eq!(f, (0, 0));
}

#[test]
fn inverse_distance_magnitude() {
    // 50 units apart, g = 0.5: contribution g * dx / d = 500 * 50000 / 50000.
    let p = at(0, 0);
    let others = vec![at(50_000, 0)];
    let f = accumulate_force(&p, &others, 500, 100_000);
    assert_eq!(f, (-500, 0));
}

#[test]
fn force_accumulates_over_neighbours() {
    // Two symmetric neighbours: the x pulls cancel, the y pulls add.
    let p = at(100_000, 100_000);
    let others = vec![at(50_000, 100_000), at(150_000, 100_000)];
    let f = accumulate_force(&p, &others, 999, 100_000);
    assert_eq!(f, (0, 0));
    let below = vec![at(100_000, 50_000), at(100_000, 40_000)];
    let f2 = accumulate_force(&p, &below, 999, 100_000);
    assert_eq!(f2.0, 0);
    assert_eq!(f2.1, 999 + 999);
}

#[test]
fn damping_halves_velocity_at_rest_force() {
    let mut rng = randomize::PCG32::seed(7, 9);
    let mut p = at(100_000, 100_000);
    p.vx = 1000;
    p.vy = -1000;
    p.update_particle(0, 0, 500_000, 500_000, 2, &mut rng);
    assert_eq!(p.vx, 500);
    assert_eq!(p.vy, -500);
    assert_eq!(p.x, 100_500);
    assert_eq!(p.y, 99_500);
    p.update_particle(0, 0, 500_000, 500_000, 2, &mut rng);
    assert_eq!(p.vx, 250);
    assert_eq!(p.vy, -250);
}

#[test]
fn boundary_reflects_and_repositions() {
    // A particle pushed past the left edge has its velocity reflected and
    // lands somewhere inside the world on that axis.
    let mut rng = randomize::PCG32::seed(3, 5);
    let mut p = at(100, 200_000);
    p.vx = -10_000;
    p.update_particle(0, 0, 500_000, 500_000, 2, &mut rng);
    assert_eq!(p.vx, 5_000);
    assert!(p.x >= 0 && p.x < 500_000);
    assert_eq!(p.y, 200_000);
}
