use particle_life::life_grid::LifeGrid;
use particle_life::particle::Particle;
use particle_life::rule::Effect;
use particle_life::rule::Rule;

fn resting(group: usize, x: i64, y: i64, life_force: i32) -> Particle {
    Particle {
        group,
        x,
        y,
        vx: 0,
        vy: 0,
        colour_rgba: [7, 8, 9, 255],
        birth_rate: 1,
        life_force,
    }
}

fn nothing_rules(n: usize) -> Vec<Rule> {
    let mut rules = Vec::new();
    for a in 0..n {
        for b in 0..n {
            rules.push(Rule { particle_group_one: a, particle_group_two: b, g: 500, effect: Effect::Nothing });
        }
    }
    rules
}

#[test]
fn new_random_world_is_warm() {
    let g = LifeGrid::new_random(500, 500, 2, 42, 7);
    assert_eq!(g.runs_with_life, 3);
    assert_eq!(g.colours.len(), 2);
    assert_eq!(g.live_particle_count, g.store.slots.len());
    for p in &g.store.slots {
        assert!(p.x >= 0 && p.x < 500_000);
        assert!(p.y >= 0 && p.y < 500_000);
        assert!(p.group < 2);
        assert!(p.life_force >= 1);
    }
}

#[test]
fn end_to_end_tick() {
    // One tick of a fixed-seed 500 by 500 world of two groups: every
    // survivor sits inside the world, and every survivor either continues
    // a pre-tick particle's life force, reduced by exactly one, or is a
    // newly spawned child with a fresh life force, at rest.
    let mut g = LifeGrid::new_random(500, 500, 2, 1234, 5678);
    let before = g.store.slots.clone();
    assert!(before.len() > 10, "seed gave a degenerate world");
    g.update();
    assert_eq!(g.runs_with_life, 4, "the tick reseeded unexpectedly");
    assert!(g.store.slots.len() <= before.len() + 255 * before.len() * before.len());
    for p in &g.store.slots {
        assert!(p.x >= 0 && p.x < 500_000);
        assert!(p.y >= 0 && p.y < 500_000);
        let continued = before.iter().any(|q| q.group == p.group && q.life_force == p.life_force + 1);
        let fresh_child = p.vx == 0 && p.vy == 0 && p.life_force >= 49 && p.life_force < 99;
        assert!(continued || fresh_child);
    }
    assert_eq!(g.live_particle_count, g.store.slots.len());
}

#[test]
fn auto_reseed_trigger() {
    // A synthetic population of exactly 10 particles under the default
    // floor of 10: the tick kills one, 9 <= 10, and the world reseeds
    // instead of limping on. A reseed leaves the warm-up counter at 3; a
    // plain tick from a fresh world would have left it at 4.
    let mut g = LifeGrid::new_random(500, 500, 2, 99, 100);
    assert_eq!(g.population_floor, 10);
    let mut synthetic = Vec::new();
    for i in 0..10 {
        let life = if i == 0 { 1 } else { 50 };
        synthetic.push(resting(i % 2, 10_000 + 2_000 * i as i64, 10_000, life));
    }
    g.store.slots = synthetic;
    g.live_particle_count = 10;
    g.rules = nothing_rules(2);
    g.update();
    assert_eq!(g.runs_with_life, 3);
    assert_eq!(g.live_particle_count, g.store.slots.len());
}

#[test]
fn no_reseed_above_floor() {
    let mut g = LifeGrid::new_random(500, 500, 2, 99, 100);
    let mut synthetic = Vec::new();
    for i in 0..30 {
        synthetic.push(resting(i % 2, 10_000 + 2_000 * i as i64, 10_000, 50));
    }
    g.store.slots = synthetic;
    g.live_particle_count = 30;
    g.rules = nothing_rules(2);
    g.update();
    assert_eq!(g.runs_with_life, 4);
    assert_eq!(g.store.slots.len(), 30);
}

#[test]
fn mass_conservation_under_no_spawn_rules() {
    // With every rule effect none, a tick can only lose particles.
    let mut g = LifeGrid::new_random(500, 500, 3, 2024, 17);
    g.rules = nothing_rules(3);
    let before = g.store.slots.len();
    assert!(before > 10, "seed gave a degenerate world");
    g.update();
    assert_eq!(g.runs_with_life, 4, "the tick reseeded unexpectedly");
    assert!(g.store.slots.len() <= before);
}

#[test]
fn force_is_directional() {
    // Only the rule (group 0 -> group 1) exists. Group 1, at rest, does
    // not move at all; group 0 is pushed away from group 1 by the exact
    // inverse-distance amount.
    let mut g = LifeGrid::new_random(500, 500, 2, 7, 8);
    let a = resting(0, 100_000, 100_000, 50);
    let b = resting(1, 150_000, 100_000, 60);
    g.store.slots = vec![a, b];
    g.live_particle_count = 2;
    g.rules = vec![Rule { particle_group_one: 0, particle_group_two: 1, g: 999, effect: Effect::Nothing }];
    g.population_floor = 0;
    g.update();
    assert_eq!(g.store.slots.len(), 2);
    let moved = g.store.slots.iter().find(|p| p.group == 0).unwrap();
    let still = g.store.slots.iter().find(|p| p.group == 1).unwrap();
    assert_eq!(still.x, 150_000);
    assert_eq!(still.y, 100_000);
    assert_eq!(still.vx, 0);
    assert_eq!(still.vy, 0);
    assert_eq!(still.life_force, 59);
    // d = 50_000 thousandths, g = 999: force x = -(999 * 50_000 / 50_000).
    assert_eq!(moved.vx, -499);
    assert_eq!(moved.x, 99_501);
    assert_eq!(moved.y, 100_000);
    assert_eq!(moved.vy, 0);
    assert_eq!(moved.life_force, 49);
}

#[test]
fn reseed_replaces_prior_state() {
    let mut g = LifeGrid::new_random(500, 500, 4, 31, 32);
    g.randomize();
    assert_eq!(g.runs_with_life, 3);
    assert_eq!(g.colours.len(), 4);
    assert!(g.rules.len() <= 16);
    assert_eq!(g.live_particle_count, g.store.slots.len());
}

#[test]
fn draw_paints_each_stored_particle() {
    let g = LifeGrid::new_random(20, 20, 1, 55, 56);
    let mut screen = vec![0u8; 20 * 20 * 4];
    g.draw(&mut screen);
    let mut painted = 0;
    for px in screen.chunks(4) {
        if px[3] != 0 {
            painted += 1;
        }
    }
    assert_eq!(painted, g.store.slots.len());
    for p in &g.store.slots {
        let cell = ((p.y / 1000) * 20 + (p.x / 1000)) as usize;
        assert_eq!(screen[4 * cell], p.colour_rgba[0]);
        assert_eq!(screen[4 * cell + 1], p.colour_rgba[1]);
        assert_eq!(screen[4 * cell + 2], p.colour_rgba[2]);
        assert_eq!(screen[4 * cell + 3], 255);
    }
}
