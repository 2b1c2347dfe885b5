use particle_life::particle::Particle;
use particle_life::particle_group::ParticleGroup;
use particle_life::rule::Effect;
use particle_life::rule::Rule;
use particle_life::rule::generate_rules;
use particle_life::rule::prune_rules;
use particle_life::store::SpatialStore;

fn member(group: usize, x: i64, y: i64, birth_rate: u8, life_force: i32) -> Particle {
    Particle {
        group,
        x,
        y,
        vx: 0,
        vy: 0,
        colour_rgba: [1, 2, 3, 255],
        birth_rate,
        life_force,
    }
}

#[test]
fn birth_exactness() {
    // P (birth rate 3) and Q overlap: exactly 3 children join P's group,
    // each alive, at rest, at P's position, in P's colour.
    let mut rng = randomize::PCG32::seed(11, 13);
    let p = member(0, 10_000, 10_000, 3, 60);
    let q = member(1, 10_200, 9_900, 1, 60);
    let mut a = ParticleGroup::new(vec![p]);
    let others = vec![q];
    a.apply_rule(0, &others, Effect::SpawnChildren, 100_000, 500_000, 500_000, 2, &mut rng);
    assert_eq!(a.group.len(), 4);
    for child in &a.group[1..] {
        assert_eq!(child.group, 0);
        assert_eq!(child.colour_rgba, [1, 2, 3, 255]);
        assert_eq!(child.birth_rate, 3);
        assert_eq!(child.x, 10_000);
        assert_eq!(child.y, 10_000);
        assert_eq!(child.vx, 0);
        assert_eq!(child.vy, 0);
        assert!(child.life_force > 0);
    }
}

#[test]
fn no_overlap_no_children() {
    // Half a unit or more apart on an axis: the offset no longer rounds
    // to zero, so nothing spawns.
    let mut rng = randomize::PCG32::seed(11, 13);
    let p = member(0, 10_000, 10_000, 3, 60);
    let q = member(1, 10_500, 10_000, 1, 60);
    let mut a = ParticleGroup::new(vec![p]);
    a.apply_rule(0, &vec![q], Effect::SpawnChildren, 100_000, 500_000, 500_000, 2, &mut rng);
    assert_eq!(a.group.len(), 1);
}

#[test]
fn effect_nothing_no_children() {
    let mut rng = randomize::PCG32::seed(11, 13);
    let p = member(0, 10_000, 10_000, 3, 60);
    let q = member(1, 10_000, 10_000, 1, 60);
    let mut a = ParticleGroup::new(vec![p]);
    a.apply_rule(0, &vec![q], Effect::Nothing, 100_000, 500_000, 500_000, 2, &mut rng);
    assert_eq!(a.group.len(), 1);
}

#[test]
fn lifecycle_termination() {
    // A particle whose life force falls to or under zero is absent from
    // the survivors; the others age by one tick, in order.
    let mut g = ParticleGroup::new(vec![
        member(0, 1_000, 1_000, 1, 1),
        member(0, 2_000, 2_000, 1, 2),
        member(0, 3_000, 3_000, 1, 50),
    ]);
    g.lifecycle();
    assert_eq!(g.group.len(), 2);
    assert_eq!(g.group[0].life_force, 1);
    assert_eq!(g.group[0].x, 2_000);
    assert_eq!(g.group[1].life_force, 49);
    for p in &g.group {
        assert!(p.life_force > 0);
    }
}

#[test]
fn lifecycle_empties_a_dying_group() {
    let mut g = ParticleGroup::new(vec![member(0, 1_000, 1_000, 1, 1)]);
    g.lifecycle();
    assert_eq!(g.group.len(), 0);
}

#[test]
fn prune_keeps_live_pairs_in_order() {
    let mut rng = randomize::PCG32::seed(1, 2);
    let rules = generate_rules(3, &mut rng);
    assert_eq!(rules.len(), 9);
    // Group 2 has died out: every rule touching it must go.
    let present = vec![true, true, false];
    let kept = prune_rules(&rules, &present);
    assert_eq!(kept.len(), 4);
    let pairs: Vec<(usize, usize)> =
        kept.iter().map(|r| (r.particle_group_one, r.particle_group_two)).collect();
    assert_eq!(pairs, vec![(0, 0), (0, 1), (1, 0), (1, 1)]);
}

#[test]
fn prune_idempotence() {
    // Pruning an already-pruned list with the same live set is a no-op.
    let mut rng = randomize::PCG32::seed(1, 2);
    let rules = generate_rules(4, &mut rng);
    let present = vec![true, false, true, false];
    let once = prune_rules(&rules, &present);
    let twice = prune_rules(&once, &present);
    assert_eq!(once.len(), twice.len());
    for (a, b) in once.iter().zip(twice.iter()) {
        assert_eq!(a.particle_group_one, b.particle_group_one);
        assert_eq!(a.particle_group_two, b.particle_group_two);
        assert_eq!(a.g, b.g);
        assert!(a.effect == b.effect);
    }
}

#[test]
fn generated_matrix_covers_every_ordered_pair() {
    let mut rng = randomize::PCG32::seed(21, 22);
    let n = 4usize;
    let rules = generate_rules(n, &mut rng);
    assert_eq!(rules.len(), 16);
    for (i, r) in rules.iter().enumerate() {
        assert_eq!(r.particle_group_one, i / n);
        assert_eq!(r.particle_group_two, i % n);
        assert!(r.g < 1000);
        if r.particle_group_one == r.particle_group_two {
            assert!(r.effect == Effect::Nothing);
        }
    }
}

#[test]
fn rule_new_respects_effect_permission() {
    let mut rng = randomize::PCG32::seed(5, 6);
    for _ in 0..32 {
        let r = Rule::new(0, 0, false, &mut rng);
        assert!(r.effect == Effect::Nothing);
        assert!(r.g < 1000);
    }
}

#[test]
fn store_commit_last_write_wins() {
    // Two particles in the same whole-unit cell: the later one keeps it.
    let mut store = SpatialStore::new();
    let mut first = member(0, 1_400, 2_000, 1, 50);
    first.colour_rgba = [9, 9, 9, 255];
    let second = member(1, 1_600, 2_900, 1, 60);
    store.commit(&vec![first, second]);
    assert_eq!(store.slots.len(), 1);
    assert_eq!(store.slots[0].colour_rgba, [1, 2, 3, 255]);
    assert_eq!(store.slots[0].group, 1);
}

#[test]
fn store_commit_keeps_distinct_cells() {
    let mut store = SpatialStore::new();
    let a = member(0, 1_400, 2_000, 1, 50);
    let b = member(1, 2_600, 2_000, 1, 60);
    store.commit(&vec![a, b]);
    assert_eq!(store.slots.len(), 2);
}

#[test]
fn regroup_partitions_by_identity() {
    let mut store = SpatialStore::new();
    let a0 = member(0, 1_000, 1_000, 1, 50);
    let b = member(1, 5_000, 5_000, 1, 50);
    let a1 = member(0, 9_000, 9_000, 1, 50);
    store.commit(&vec![a0, b, a1]);
    let (groups, present) = store.regroup(3);
    assert_eq!(groups.len(), 3);
    assert_eq!(groups[0].group.len(), 2);
    assert_eq!(groups[1].group.len(), 1);
    assert_eq!(groups[2].group.len(), 0);
    assert_eq!(present, vec![true, true, false]);
    assert_eq!(groups[0].group[0].x, 1_000);
    assert_eq!(groups[0].group[1].x, 9_000);
}
