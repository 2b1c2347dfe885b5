//! The simulator: a world of colour-tagged particle groups driven by a
//! directed rule matrix.
//!
//! One tick works entirely from the pre-tick snapshot of the spatial
//! store: it regroups the population, prunes the rules against the groups
//! still populated, collects the children owed by every spawning rule,
//! accumulates on every particle the force of every rule sourced at its
//! group, integrates each particle once (damping applied once per tick),
//! ages everything, and commits the survivors back into the store. When
//! the tick's survivor count falls to the population floor, the tick
//! reseeds the world instead of continuing with a collapsed population.

use vstd::prelude::*;

use crate::force::accumulate_force;
use crate::math::tdiv;
use crate::force::net_force_x;
use crate::force::net_force_y;
use crate::particle::MAX_NEIGHBOURS;
use crate::particle::MAX_WORLD;
use crate::particle::Particle;
use crate::particle::LIFE_MAX;
use crate::particle::LIFE_MIN;
use crate::particle::MAX_FORCE;
use crate::particle::SCALE;
use crate::particle_group::ParticleGroup;
use crate::particle_group::aged;
use crate::particle_group::child_of;
use crate::particle_group::cull_spec;
use crate::particle_group::lemma_cull_props;
use crate::particle_group::lemma_spawn_parents_membership;
use crate::particle_group::spawn_parents;
use crate::pixel::Pixel;
use crate::rng::draw_below;
use crate::rng::pcg_seed;
use crate::rule::Effect;
use crate::rule::MAX_GROUPS;
use crate::rule::Rule;
use crate::rule::generate_rules;
use crate::rule::prune_rules;
use crate::rule::prune_spec;
use crate::store::SpatialStore;
use crate::store::distinct_keys;
use crate::store::group_of;

verus! {

/// Warm-up ticks a reseed runs before the world is shown, so the first
/// visible frame is not degenerate.
pub const WARMUP_TICKS: u64 = 3;

/// Default per-group particle allowance at reseed.
pub const DEFAULT_MAX_PER_GROUP: u32 = 100;

/// Default population floor at or under which a tick reseeds the world.
pub const DEFAULT_POPULATION_FLOOR: usize = 10;

/// Default force cutoff radius, in whole units.
pub const DEFAULT_CUTOFF: u32 = 100;

/// Default damping divisor: a velocity halves each tick.
pub const DEFAULT_DAMPING_DIV: i64 = 2;

/// Largest per-group allowance a world may be configured with.
pub const MAX_PER_GROUP: u32 = 1_000_000;

/// The largest force one rule can contribute to one particle in one tick.
pub const FORCE_PER_RULE: i64 = SCALE * (MAX_NEIGHBOURS as i64);

/// The groups of `slots` that currently have at least one live member.
pub open spec fn presence(slots: Seq<Particle>, n: int) -> Seq<bool> {
    Seq::new(n as nat, |k: int| group_of(slots, k).len() > 0)
}

/// The x force accumulated on pre-tick particle `p` of group `k` over a
/// rule list, each rule read against the pre-tick group of its target.
pub open spec fn tick_force_x(
    p: Particle,
    slots: Seq<Particle>,
    rules: Seq<Rule>,
    k: int,
    cutoff_milli: int,
) -> int
    decreases rules.len(),
{
    if rules.len() == 0 {
        0
    } else {
        tick_force_x(p, slots, rules.drop_last(), k, cutoff_milli) + (
        if rules.last().particle_group_one == k {
            net_force_x(
                p,
                group_of(slots, rules.last().particle_group_two as int),
                rules.last().g as int,
                cutoff_milli,
            )
        } else {
            0
        })
    }
}

pub open spec fn tick_force_y(
    p: Particle,
    slots: Seq<Particle>,
    rules: Seq<Rule>,
    k: int,
    cutoff_milli: int,
) -> int
    decreases rules.len(),
{
    if rules.len() == 0 {
        0
    } else {
        tick_force_y(p, slots, rules.drop_last(), k, cutoff_milli) + (
        if rules.last().particle_group_one == k {
            net_force_y(
                p,
                group_of(slots, rules.last().particle_group_two as int),
                rules.last().g as int,
                cutoff_milli,
            )
        } else {
            0
        })
    }
}

/// The children owed to group `k` by every spawning rule sourced at `k`,
/// in rule order, each rule read against the pre-tick groups.
pub open spec fn tick_parents(slots: Seq<Particle>, rules: Seq<Rule>, k: int) -> Seq<Particle>
    decreases rules.len(),
{
    if rules.len() == 0 {
        Seq::empty()
    } else {
        tick_parents(slots, rules.drop_last(), k) + (
        if rules.last().particle_group_one == k && rules.last().effect == Effect::SpawnChildren {
            spawn_parents(group_of(slots, k), group_of(slots, rules.last().particle_group_two as int))
        } else {
            Seq::empty()
        })
    }
}

/// The total number of children one tick owes, over the groups `0..n`.
pub open spec fn tick_births(slots: Seq<Particle>, rules: Seq<Rule>, n: int) -> int
    decreases n,
{
    if n <= 0 {
        0
    } else {
        tick_births(slots, rules, n - 1) + tick_parents(slots, rules, n - 1).len()
    }
}

/// How many members of `s` outlive one lifecycle decrement.
pub open spec fn outliving(s: Seq<Particle>) -> int {
    s.filter(|p: Particle| p.life_force > 1).len() as int
}

/// How many members of the groups `0..n` outlive one lifecycle
/// decrement.
pub open spec fn alive_sum(slots: Seq<Particle>, n: int) -> int
    decreases n,
{
    if n <= 0 {
        0
    } else {
        alive_sum(slots, n - 1) + outliving(group_of(slots, n - 1))
    }
}

/// The tick's survivor count: the members that outlive the decrement,
/// plus, when births fit under the population cap, the children the tick
/// owes (a fresh child always outlives its first decrement).
pub open spec fn total_survivors(
    slots: Seq<Particle>,
    rules: Seq<Rule>,
    n: int,
    births_on: bool,
) -> int {
    alive_sum(slots, n) + if births_on {
        tick_births(slots, rules, n)
    } else {
        0
    }
}

/// Every rule of the list is a pure force rule.
pub open spec fn no_spawn(rules: Seq<Rule>) -> bool {
    forall|i: int| 0 <= i < rules.len() ==> (#[trigger] rules[i]).effect == Effect::Nothing
}

/// A particle is a valid inhabitant of a `w` by `h` world of `n` groups.
pub open spec fn inhabitant(p: Particle, w_milli: int, h_milli: int, n: int) -> bool {
    &&& p.bounded(w_milli, h_milli)
    &&& p.group < n
    &&& p.life_force >= 1
}

/// `p` is what became of pre-tick particle `q`: integrated once under the
/// force of every rule sourced at its group, then aged by one tick.
pub open spec fn tick_descendant(
    q: Particle,
    p: Particle,
    slots: Seq<Particle>,
    rules: Seq<Rule>,
    w_milli: int,
    h_milli: int,
    damping_div: int,
    cutoff_milli: int,
) -> bool {
    exists|mid: Particle|
        q.integrated(
            mid,
            tick_force_x(q, slots, rules, q.group as int, cutoff_milli),
            tick_force_y(q, slots, rules, q.group as int, cutoff_milli),
            w_milli,
            h_milli,
            damping_div,
        ) && p == aged(mid)
}

/// `p` is what a child of `parent` looks like after its first lifecycle
/// decrement.
pub open spec fn aged_child_of(parent: Particle, p: Particle) -> bool {
    &&& p.group == parent.group
    &&& p.colour_rgba == parent.colour_rgba
    &&& p.birth_rate == parent.birth_rate
    &&& p.x == parent.x && p.y == parent.y
    &&& p.vx == 0 && p.vy == 0
    &&& LIFE_MIN - 1 <= p.life_force < LIFE_MAX - 1
}

/// `p` is a child the tick owed its group, already aged by its first
/// lifecycle decrement.
pub open spec fn tick_offspring(p: Particle, slots: Seq<Particle>, rules: Seq<Rule>) -> bool {
    exists|j: int|
        0 <= j < tick_parents(slots, rules, p.group as int).len() && aged_child_of(
            #[trigger] tick_parents(slots, rules, p.group as int)[j],
            p,
        )
}

/// Everything a committed particle can be: the descendant of a pre-tick
/// particle, or a child born this tick.
pub open spec fn tick_member(
    p: Particle,
    slots: Seq<Particle>,
    rules: Seq<Rule>,
    w_milli: int,
    h_milli: int,
    damping_div: int,
    cutoff_milli: int,
) -> bool {
    ||| exists|j: int|
        0 <= j < slots.len() && tick_descendant(
            #[trigger] slots[j],
            p,
            slots,
            rules,
            w_milli,
            h_milli,
            damping_div,
            cutoff_milli,
        )
    ||| tick_offspring(p, slots, rules)
}

/// The world: configuration, palette, rule matrix, spatial store and the
/// generator state, owned together so that a fixed seed reproduces a run.
pub struct LifeGrid {
    /// World size in whole units.
    pub width: u32,
    pub height: u32,
    pub num_of_particle_groups: usize,
    /// One colour per group, drawn at reseed.
    pub colours: Vec<Pixel>,
    /// The rule matrix, pruned in place every tick.
    pub rules: Vec<Rule>,
    /// The authoritative population.
    pub store: SpatialStore,
    /// Population after the most recent tick or reseed.
    pub live_particle_count: usize,
    /// Ticks since the most recent generation of the world.
    pub runs_with_life: u64,
    /// Per-group particle allowance at reseed.
    pub max_particles_per_group: u32,
    /// Survivor count at or under which a tick reseeds the world.
    pub population_floor: usize,
    /// Hard cap on the population; a tick whose births would push the
    /// population past it skips the birth pass (the throttle a host tunes
    /// instead of interrupting a tick).
    pub max_population: usize,
    /// Force cutoff radius in whole units.
    pub cutoff: u32,
    /// Damping divisor applied to every velocity once per tick.
    pub damping_div: i64,
    /// The world's own generator, seeded at construction.
    pub rng: randomize::PCG32,
}

impl LifeGrid {
    pub open spec fn w_milli(self) -> int {
        self.width as int * SCALE as int
    }

    pub open spec fn h_milli(self) -> int {
        self.height as int * SCALE as int
    }

    pub open spec fn cutoff_milli(self) -> int {
        self.cutoff as int * SCALE as int
    }

    pub open spec fn n(self) -> int {
        self.num_of_particle_groups as int
    }

    /// The configuration is within the ranges the arithmetic relies on.
    pub open spec fn config_wf(self) -> bool {
        &&& 1 <= self.width <= MAX_WORLD
        &&& 1 <= self.height <= MAX_WORLD
        &&& 1 <= self.num_of_particle_groups <= MAX_GROUPS
        &&& 1 <= self.max_particles_per_group <= MAX_PER_GROUP
        &&& self.n() * self.max_particles_per_group as int <= self.max_population as int
        &&& self.max_population <= MAX_NEIGHBOURS
        &&& 2 <= self.damping_div
    }

    /// The whole world is well-formed: valid configuration, a full
    /// palette, a rule matrix over the configured groups, and a store of
    /// valid inhabitants with distinct cells, within the population cap.
    pub open spec fn wf(self) -> bool {
        &&& self.config_wf()
        &&& self.colours@.len() == self.num_of_particle_groups
        &&& self.rules@.len() <= self.n() * self.n()
        &&& forall|i: int| 0 <= i < self.rules@.len() ==> (#[trigger] self.rules@[i]).wf(self.n())
        &&& forall|i: int|
            0 <= i < self.store.slots@.len() ==> inhabitant(
                #[trigger] self.store.slots@[i],
                self.w_milli(),
                self.h_milli(),
                self.n(),
            )
        &&& distinct_keys(self.store.slots@)
        &&& self.store.slots@.len() <= self.max_population
    }

    /// The tick's pruned rule list, as a function of the pre-tick state.
    pub open spec fn pruned_rules(self) -> Seq<Rule> {
        prune_spec(self.rules@, presence(self.store.slots@, self.n()))
    }

    /// Whether the tick's births fit under the population cap.
    pub open spec fn births_allowed(self) -> bool {
        self.store.slots@.len() + tick_births(self.store.slots@, self.pruned_rules(), self.n())
            <= self.max_population
    }

    /// The tick's survivor count, as a function of the pre-tick state.
    pub open spec fn tick_survivors(self) -> int {
        total_survivors(
            self.store.slots@,
            self.pruned_rules(),
            self.n(),
            self.births_allowed(),
        )
    }

    /// The configuration fields a tick never touches.
    pub open spec fn same_config(self, other: LifeGrid) -> bool {
        &&& self.width == other.width
        &&& self.height == other.height
        &&& self.num_of_particle_groups == other.num_of_particle_groups
        &&& self.max_particles_per_group == other.max_particles_per_group
        &&& self.population_floor == other.population_floor
        &&& self.max_population == other.max_population
        &&& self.cutoff == other.cutoff
        &&& self.damping_div == other.damping_div
    }

    /// A fresh palette: one uniformly drawn colour per group, fully
    /// opaque.
    fn randomise_rgb_colours(&mut self) -> (colours: Vec<Pixel>)
        requires
            old(self).config_wf(),
        ensures
            colours@.len() == old(self).num_of_particle_groups,
            forall|i: int| 0 <= i < colours@.len() ==> (#[trigger] colours@[i]).colour_rgba[3] == 255,
            final(self).same_config(*old(self)),
            final(self).colours == old(self).colours,
            final(self).rules == old(self).rules,
            final(self).store == old(self).store,
            final(self).runs_with_life == old(self).runs_with_life,
            final(self).live_particle_count == old(self).live_particle_count,
    {
        let n = self.num_of_particle_groups;
        let mut colours: Vec<Pixel> = Vec::new();
        let mut k: usize = 0;
        while k < n
            invariant
                0 <= k <= n,
                colours@.len() == k,
                forall|i: int|
                    0 <= i < colours@.len() ==> (#[trigger] colours@[i]).colour_rgba[3] == 255,
                self.same_config(*old(self)),
                self.colours == old(self).colours,
                self.rules == old(self).rules,
                self.store == old(self).store,
                self.runs_with_life == old(self).runs_with_life,
                self.live_particle_count == old(self).live_particle_count,
            decreases n - k,
        {
            let r = draw_below(&mut self.rng, 256) as u8;
            let g = draw_below(&mut self.rng, 256) as u8;
            let b = draw_below(&mut self.rng, 256) as u8;
            colours.push(Pixel::new([r, g, b, 255]));
            k = k + 1;
        }
        colours
    }

    /// A fresh population: a palette, then for each group a uniformly
    /// drawn number of particles (under the configured allowance) at
    /// uniformly drawn positions, at rest, with fresh life forces.
    fn generate_particles(&mut self)
        requires
            old(self).config_wf(),
        ensures
            final(self).same_config(*old(self)),
            final(self).rules == old(self).rules,
            final(self).runs_with_life == old(self).runs_with_life,
            final(self).colours@.len() == final(self).num_of_particle_groups,
            forall|i: int|
                0 <= i < final(self).store.slots@.len() ==> inhabitant(
                    #[trigger] final(self).store.slots@[i],
                    final(self).w_milli(),
                    final(self).h_milli(),
                    final(self).n(),
                ),
            distinct_keys(final(self).store.slots@),
            final(self).store.slots@.len() <= final(self).max_population,
            final(self).live_particle_count == final(self).store.slots@.len(),
    {
        let colours = self.randomise_rgb_colours();
        self.colours = colours;
        let n = self.num_of_particle_groups;
        let w_milli = (self.width as i64) * SCALE;
        let h_milli = (self.height as i64) * SCALE;
        let mut all: Vec<Particle> = Vec::new();
        let mut k: usize = 0;
        while k < n
            invariant
                0 <= k <= n,
                self.config_wf(),
                self.same_config(*old(self)),
                self.rules == old(self).rules,
                self.runs_with_life == old(self).runs_with_life,
                self.colours@.len() == n,
                n == self.num_of_particle_groups,
                w_milli == self.w_milli(),
                h_milli == self.h_milli(),
                SCALE <= w_milli <= MAX_WORLD as i64 * SCALE,
                SCALE <= h_milli <= MAX_WORLD as i64 * SCALE,
                all@.len() <= k * self.max_particles_per_group as int,
                forall|i: int|
                    0 <= i < all@.len() ==> inhabitant(
                        #[trigger] all@[i],
                        self.w_milli(),
                        self.h_milli(),
                        self.n(),
                    ),
            decreases n - k,
        {
            let count = draw_below(&mut self.rng, self.max_particles_per_group);
            let colour = self.colours[k].colour_rgba;
            let mut c: u32 = 0;
            while c < count
                invariant
                    0 <= c <= count,
                    count < self.max_particles_per_group,
                    0 <= k < n,
                    self.config_wf(),
                    self.same_config(*old(self)),
                    self.rules == old(self).rules,
                    self.runs_with_life == old(self).runs_with_life,
                    self.colours@.len() == n,
                    n == self.num_of_particle_groups,
                    w_milli == self.w_milli(),
                    h_milli == self.h_milli(),
                    SCALE <= w_milli <= MAX_WORLD as i64 * SCALE,
                    SCALE <= h_milli <= MAX_WORLD as i64 * SCALE,
                    all@.len() <= k * self.max_particles_per_group as int + c,
                    forall|i: int|
                        0 <= i < all@.len() ==> inhabitant(
                            #[trigger] all@[i],
                            self.w_milli(),
                            self.h_milli(),
                            self.n(),
                        ),
                decreases count - c,
            {
                let x = draw_below(&mut self.rng, w_milli as u32) as i64;
                let y = draw_below(&mut self.rng, h_milli as u32) as i64;
                let p = Particle::new(k, x, y, 0, 0, colour, 1, &mut self.rng);
                all.push(p);
                c = c + 1;
            }
            proof {
                assert((k + 1) * self.max_particles_per_group as int == k
                    * self.max_particles_per_group as int + self.max_particles_per_group as int)
                    by (nonlinear_arith);
            }
            k = k + 1;
        }
        proof {
            assert(all@.len() <= self.n() * self.max_particles_per_group as int)
                by (nonlinear_arith)
                requires
                    all@.len() <= self.n() * self.max_particles_per_group as int,
            ;
        }
        self.store.commit(&all);
        self.live_particle_count = self.store.slots.len();
    }

    /// A fresh rule matrix over the configured groups.
    fn randomise_rules(&mut self)
        requires
            old(self).config_wf(),
        ensures
            final(self).same_config(*old(self)),
            final(self).colours == old(self).colours,
            final(self).store == old(self).store,
            final(self).runs_with_life == old(self).runs_with_life,
            final(self).live_particle_count == old(self).live_particle_count,
            final(self).rules@.len() == final(self).n() * final(self).n(),
            forall|i: int|
                0 <= i < final(self).rules@.len() ==> (#[trigger] final(self).rules@[i]).wf(
                    final(self).n(),
                ),
    {
        let n = self.num_of_particle_groups;
        let fresh = generate_rules(n, &mut self.rng);
        proof {
            assert forall|i: int| 0 <= i < fresh@.len() implies (#[trigger] fresh@[i]).wf(
                n as int,
            ) by {
                assert(crate::rule::row_major_rule(fresh@[i], i, n as int));
                vstd::arithmetic::div_mod::lemma_multiply_divide_lt(i, n as int, n as int);
                vstd::arithmetic::div_mod::lemma_mod_division_less_than_divisor(i, n as int);
            }
        }
        self.rules = fresh;
    }

    /// One tick, worked entirely from the pre-tick store snapshot:
    /// regroup, prune the rules, collect the children every spawning rule
    /// owes, accumulate on every particle the force of every rule sourced
    /// at its group, integrate each particle once, age everything, and
    /// commit the survivors. Returns the tick's survivor count (counted
    /// before the spatial merge, so it does not depend on how many
    /// particles happen to share a cell); the caller decides whether that
    /// count means the world has collapsed.
    fn tick_step(&mut self) -> (survivors: usize)
        requires
            old(self).wf(),
            old(self).runs_with_life < u64::MAX,
        ensures
            final(self).wf(),
            final(self).same_config(*old(self)),
            final(self).colours == old(self).colours,
            final(self).runs_with_life == old(self).runs_with_life + 1,
            final(self).rules@ == old(self).pruned_rules(),
            survivors as int == old(self).tick_survivors(),
            final(self).store.slots@.len() <= survivors,
            final(self).live_particle_count == final(self).store.slots@.len(),
            forall|i: int|
                0 <= i < final(self).store.slots@.len() ==> tick_member(
                    #[trigger] final(self).store.slots@[i],
                    old(self).store.slots@,
                    old(self).pruned_rules(),
                    old(self).w_milli(),
                    old(self).h_milli(),
                    old(self).damping_div as int,
                    old(self).cutoff_milli(),
                ),
    {
        let ghost slots0 = self.store.slots@;
        let n = self.num_of_particle_groups;
        let w_milli = (self.width as i64) * SCALE;
        let h_milli = (self.height as i64) * SCALE;
        let cutoff_milli = (self.cutoff as i64) * SCALE;
        let ghost div = self.damping_div as int;

        proof {
            assert(w_milli as int == old(self).w_milli());
            assert(h_milli as int == old(self).h_milli());
            assert(cutoff_milli as int == old(self).cutoff_milli());
            assert forall|i: int| 0 <= i < slots0.len() implies inhabitant(
                #[trigger] slots0[i],
                w_milli as int,
                h_milli as int,
                n as int,
            ) by {
                assert(inhabitant(
                    slots0[i],
                    old(self).w_milli(),
                    old(self).h_milli(),
                    old(self).n(),
                ));
            }
        }
        let (groups, present) = self.store.regroup(n);
        proof {
            assert(present@ =~= presence(slots0, n as int));
        }
        let pruned = prune_rules(&self.rules, &present);
        proof {
            crate::rule::lemma_prune_membership(self.rules@, present@);
            assert forall|i: int| 0 <= i < pruned@.len() implies (#[trigger] pruned@[i]).wf(
                n as int,
            ) by {
                let j = choose|j: int| 0 <= j < self.rules@.len() && self.rules@[j] == pruned@[i];
                assert(self.rules@[j].wf(n as int));
            }
        }
        self.rules = pruned;
        let ghost rules1 = self.rules@;
        proof {
            assert(rules1 == old(self).pruned_rules());
        }

        // Birth pass: collect the children every spawning rule owes, per
        // group, against the pre-tick snapshots.
        let mut all_kids: Vec<Vec<Particle>> = Vec::new();
        let mut births_total: u128 = 0;
        let mut k: usize = 0;
        while k < n
            invariant
                0 <= k <= n,
                n == self.num_of_particle_groups,
                self.wf(),
                self.same_config(*old(self)),
                self.colours == old(self).colours,
                self.runs_with_life == old(self).runs_with_life,
                self.live_particle_count == old(self).live_particle_count,
                self.store.slots@ == slots0,
                self.rules@ == rules1,
                SCALE <= w_milli <= MAX_WORLD as i64 * SCALE,
                SCALE <= h_milli <= MAX_WORLD as i64 * SCALE,
                groups@.len() == n,
                forall|m: int|
                    0 <= m < n ==> (#[trigger] groups@[m]).group@ == group_of(slots0, m),
                forall|i: int|
                    0 <= i < slots0.len() ==> inhabitant(
                        #[trigger] slots0[i],
                        w_milli as int,
                        h_milli as int,
                        n as int,
                    ),
                all_kids@.len() == k,
                forall|m: int|
                    0 <= m < k ==> kids_match(
                        tick_parents(slots0, rules1, m),
                        (#[trigger] all_kids@[m])@,
                    ),
                births_total == tick_births(slots0, rules1, k as int),
                births_total <= (k as u128) * 0x1_0000_0000_0000_0000u128,
            decreases n - k,
        {
            let mut kids_k: Vec<Particle> = Vec::new();
            let mut r: usize = 0;
            proof {
                assert(rules1.take(0) =~= Seq::<Rule>::empty());
                lemma_group_members(slots0, k as int, w_milli as int, h_milli as int, n as int);
            }
            while r < self.rules.len()
                invariant
                    0 <= r <= self.rules@.len(),
                    0 <= k < n,
                    n == self.num_of_particle_groups,
                    self.wf(),
                    self.same_config(*old(self)),
                    self.colours == old(self).colours,
                    self.runs_with_life == old(self).runs_with_life,
                    self.live_particle_count == old(self).live_particle_count,
                    self.store.slots@ == slots0,
                    self.rules@ == rules1,
                    SCALE <= w_milli <= MAX_WORLD as i64 * SCALE,
                    SCALE <= h_milli <= MAX_WORLD as i64 * SCALE,
                    groups@.len() == n,
                    forall|m: int|
                        0 <= m < n ==> (#[trigger] groups@[m]).group@ == group_of(slots0, m),
                    forall|i: int|
                        0 <= i < slots0.len() ==> inhabitant(
                            #[trigger] slots0[i],
                            w_milli as int,
                            h_milli as int,
                            n as int,
                        ),
                    forall|j: int|
                        0 <= j < group_of(slots0, k as int).len() ==> inhabitant(
                            #[trigger] group_of(slots0, k as int)[j],
                            w_milli as int,
                            h_milli as int,
                            n as int,
                        ),
                    kids_match(tick_parents(slots0, rules1.take(r as int), k as int), kids_k@),
                decreases self.rules@.len() - r,
            {
                let rule = self.rules[r];
                let ghost head = tick_parents(slots0, rules1.take(r as int), k as int);
                proof {
                    assert(rules1.take(r as int + 1).drop_last() =~= rules1.take(r as int));
                    assert(rules1.take(r as int + 1).last() == rules1[r as int]);
                }
                if rule.particle_group_one == k && matches!(rule.effect, Effect::SpawnChildren) {
                    let b = rule.particle_group_two;
                    proof {
                        lemma_group_members(
                            slots0,
                            b as int,
                            w_milli as int,
                            h_milli as int,
                            n as int,
                        );
                        assert forall|j: int|
                            0 <= j < groups@[k as int].group@.len() implies 0 <= #[trigger] groups@[
                            k as int].group@[j].x <= MAX_WORLD as i64 * SCALE && 0 <= groups@[
                            k as int].group@[j].y <= MAX_WORLD as i64 * SCALE by {
                            assert(inhabitant(
                                group_of(slots0, k as int)[j],
                                w_milli as int,
                                h_milli as int,
                                n as int,
                            ));
                        }
                        assert forall|j: int|
                            0 <= j < groups@[b as int].group@.len() implies 0 <= #[trigger] groups@[
                            b as int].group@[j].x <= MAX_WORLD as i64 * SCALE && 0 <= groups@[
                            b as int].group@[j].y <= MAX_WORLD as i64 * SCALE by {
                            assert(inhabitant(
                                group_of(slots0, b as int)[j],
                                w_milli as int,
                                h_milli as int,
                                n as int,
                            ));
                        }
                    }
                    let mut batch = ParticleGroup::collect_children(
                        &groups[k].group,
                        &groups[b].group,
                        &mut self.rng,
                    );
                    let ghost row = spawn_parents(group_of(slots0, k as int), group_of(slots0, b as int));
                    let ghost pre_kids = kids_k@;
                    let ghost batch_pre = batch@;
                    kids_k.append(&mut batch);
                    proof {
                        assert(kids_k@ == pre_kids + batch_pre);
                        assert(tick_parents(slots0, rules1.take(r as int + 1), k as int) == head
                            + row);
                        assert forall|j: int|
                            0 <= j < kids_k@.len() implies child_of(
                            (head + row)[j],
                            #[trigger] kids_k@[j],
                        ) by {
                            if j < pre_kids.len() {
                                assert(kids_k@[j] == pre_kids[j]);
                                assert((head + row)[j] == head[j]);
                            } else {
                                assert((head + row)[j] == row[j - pre_kids.len()]);
                                assert(kids_k@[j] == batch_pre[j - pre_kids.len()]);
                            }
                        }
                    }
                } else {
                    proof {
                        assert(tick_parents(slots0, rules1.take(r as int + 1), k as int) =~= head);
                    }
                }
                r = r + 1;
            }
            let klen: u128 = kids_k.len() as u128;
            proof {
                assert(rules1.take(rules1.len() as int) =~= rules1);
                assert(tick_births(slots0, rules1, k as int + 1) == tick_births(
                    slots0,
                    rules1,
                    k as int,
                ) + tick_parents(slots0, rules1, k as int).len());
                assert(klen < 0x1_0000_0000_0000_0000u128);
                assert((k as int + 1) * 0x1_0000_0000_0000_0000 == (k as int)
                    * 0x1_0000_0000_0000_0000 + 0x1_0000_0000_0000_0000) by (nonlinear_arith);
                assert((k as int) * 0x1_0000_0000_0000_0000 <= 1000
                    * 0x1_0000_0000_0000_0000) by (nonlinear_arith)
                    requires
                        k <= 1000,
                ;
            }
            births_total = births_total + klen;
            all_kids.push(kids_k);
            k = k + 1;
        }
        let births_on = (self.store.slots.len() as u128) + births_total
            <= (self.max_population as u128);
        proof {
            assert(births_on == old(self).births_allowed());
        }

        // Force, integration and lifecycle, per group, building the
        // population the tick hands back to the store.
        let ghost rt = rules1.len() as int;
        proof {
            assert(rt <= (n as int) * (n as int));
            assert((n as int) * (n as int) <= 1_000_000) by (nonlinear_arith)
                requires
                    n <= 1000,
            ;
            assert(1_000_000 * FORCE_PER_RULE <= MAX_FORCE);
            assert(rt * FORCE_PER_RULE <= 1_000_000 * FORCE_PER_RULE) by (nonlinear_arith)
                requires
                    rt <= 1_000_000,
                    FORCE_PER_RULE >= 0,
            ;
        }
        let mut flat: Vec<Particle> = Vec::new();
        let mut k2: usize = 0;
        while k2 < n
            invariant
                0 <= k2 <= n,
                n == self.num_of_particle_groups,
                self.wf(),
                self.same_config(*old(self)),
                self.colours == old(self).colours,
                self.runs_with_life == old(self).runs_with_life,
                self.live_particle_count == old(self).live_particle_count,
                self.store.slots@ == slots0,
                self.rules@ == rules1,
                rt == rules1.len() as int,
                rt * FORCE_PER_RULE <= MAX_FORCE,
                w_milli == old(self).w_milli(),
                h_milli == old(self).h_milli(),
                cutoff_milli == old(self).cutoff_milli(),
                div == self.damping_div as int,
                groups@.len() == n,
                forall|m: int|
                    0 <= m < n ==> (#[trigger] groups@[m]).group@ == group_of(slots0, m),
                all_kids@.len() == n - k2,
                forall|m: int|
                    0 <= m < n - k2 ==> kids_match(
                        tick_parents(slots0, rules1, k2 + m),
                        (#[trigger] all_kids@[m])@,
                    ),
                flat@.len() == alive_sum(slots0, k2 as int) + (if births_on {
                    tick_births(slots0, rules1, k2 as int)
                } else {
                    0int
                }),
                forall|i: int|
                    0 <= i < flat@.len() ==> inhabitant(
                        #[trigger] flat@[i],
                        w_milli as int,
                        h_milli as int,
                        n as int,
                    ),
                forall|i: int|
                    0 <= i < flat@.len() ==> tick_member(
                        #[trigger] flat@[i],
                        slots0,
                        rules1,
                        w_milli as int,
                        h_milli as int,
                        div,
                        cutoff_milli as int,
                    ),
            decreases n - k2,
        {
            let members = &groups[k2].group;
            proof {
                lemma_group_members(slots0, k2 as int, w_milli as int, h_milli as int, n as int);
            }
            let mut out: Vec<Particle> = Vec::new();
            let mut i: usize = 0;
            while i < members.len()
                invariant
                    0 <= i <= members@.len(),
                    0 <= k2 < n,
                    n == self.num_of_particle_groups,
                    self.wf(),
                    self.same_config(*old(self)),
                    self.colours == old(self).colours,
                    self.runs_with_life == old(self).runs_with_life,
                    self.live_particle_count == old(self).live_particle_count,
                    self.store.slots@ == slots0,
                    self.rules@ == rules1,
                    rt == rules1.len() as int,
                    rt * FORCE_PER_RULE <= MAX_FORCE,
                    w_milli == old(self).w_milli(),
                    h_milli == old(self).h_milli(),
                    SCALE <= w_milli <= MAX_WORLD as i64 * SCALE,
                    SCALE <= h_milli <= MAX_WORLD as i64 * SCALE,
                    cutoff_milli == old(self).cutoff_milli(),
                    div == self.damping_div as int,
                    groups@.len() == n,
                    members@ == group_of(slots0, k2 as int),
                    forall|m: int|
                        0 <= m < n ==> (#[trigger] groups@[m]).group@ == group_of(slots0, m),
                    forall|j: int|
                        0 <= j < members@.len() ==> inhabitant(
                            #[trigger] members@[j],
                            w_milli as int,
                            h_milli as int,
                            n as int,
                        ),
                    forall|j: int|
                        0 <= j < members@.len() ==> (#[trigger] members@[j]).group == k2,
                    out@.len() == i,
                    forall|j: int|
                        0 <= j < i ==> (#[trigger] members@[j]).integrated(
                            out@[j],
                            tick_force_x(members@[j], slots0, rules1, k2 as int, cutoff_milli as int),
                            tick_force_y(members@[j], slots0, rules1, k2 as int, cutoff_milli as int),
                            w_milli as int,
                            h_milli as int,
                            div,
                        ),
                    forall|j: int|
                        0 <= j < i ==> (#[trigger] out@[j]).bounded(w_milli as int, h_milli as int),
                decreases members@.len() - i,
            {
                let p = members[i];
                let mut fx: i64 = 0;
                let mut fy: i64 = 0;
                let mut r: usize = 0;
                proof {
                    assert(rules1.take(0) =~= Seq::<Rule>::empty());
                }
                while r < self.rules.len()
                    invariant
                        0 <= r <= rules1.len(),
                        0 <= k2 < n,
                        n == self.num_of_particle_groups,
                        self.wf(),
                        self.store.slots@ == slots0,
                        self.rules@ == rules1,
                        rt == rules1.len() as int,
                        rt * FORCE_PER_RULE <= MAX_FORCE,
                        cutoff_milli == old(self).cutoff_milli(),
                        p == members@[i as int],
                        0 <= i < members@.len(),
                        members@ == group_of(slots0, k2 as int),
                        0 <= p.x <= MAX_WORLD as i64 * SCALE,
                        0 <= p.y <= MAX_WORLD as i64 * SCALE,
                        groups@.len() == n,
                        forall|m: int|
                            0 <= m < n ==> (#[trigger] groups@[m]).group@ == group_of(slots0, m),
                        forall|ii: int|
                            0 <= ii < slots0.len() ==> inhabitant(
                                #[trigger] slots0[ii],
                                w_milli as int,
                                h_milli as int,
                                n as int,
                            ),
                        fx == tick_force_x(p, slots0, rules1.take(r as int), k2 as int, cutoff_milli as int),
                        fy == tick_force_y(p, slots0, rules1.take(r as int), k2 as int, cutoff_milli as int),
                        -(r as int * FORCE_PER_RULE) <= fx <= r as int * FORCE_PER_RULE,
                        -(r as int * FORCE_PER_RULE) <= fy <= r as int * FORCE_PER_RULE,
                    decreases rules1.len() - r,
                {
                    let rule = self.rules[r];
                    proof {
                        assert(rules1.take(r as int + 1).drop_last() =~= rules1.take(r as int));
                        assert(rules1.take(r as int + 1).last() == rules1[r as int]);
                        assert(r as int * FORCE_PER_RULE + FORCE_PER_RULE == (r as int + 1)
                            * FORCE_PER_RULE) by (nonlinear_arith);
                        assert((r as int + 1) * FORCE_PER_RULE <= rt * FORCE_PER_RULE)
                            by (nonlinear_arith)
                            requires
                                r as int + 1 <= rt,
                                FORCE_PER_RULE >= 0,
                        ;
                    }
                    if rule.particle_group_one == k2 {
                        let b = rule.particle_group_two;
                        proof {
                            lemma_group_members(
                                slots0,
                                b as int,
                                w_milli as int,
                                h_milli as int,
                                n as int,
                            );
                            assert(group_of(slots0, b as int).len() <= slots0.len());
                            assert forall|j: int|
                                0 <= j < groups@[b as int].group@.len() implies 0
                                <= #[trigger] groups@[b as int].group@[j].x <= MAX_WORLD as i64
                                * SCALE && 0 <= groups@[b as int].group@[j].y <= MAX_WORLD as i64
                                * SCALE by {
                                assert(inhabitant(
                                    group_of(slots0, b as int)[j],
                                    w_milli as int,
                                    h_milli as int,
                                    n as int,
                                ));
                            }
                            assert(SCALE * groups@[b as int].group@.len() as int
                                <= FORCE_PER_RULE) by (nonlinear_arith)
                                requires
                                    groups@[b as int].group@.len() <= MAX_NEIGHBOURS,
                                    FORCE_PER_RULE == SCALE * (MAX_NEIGHBOURS as i64),
                                    SCALE >= 0,
                            ;
                        }
                        let f = accumulate_force(&p, &groups[b].group, rule.g, cutoff_milli);
                        fx = fx + f.0;
                        fy = fy + f.1;
                    }
                    r = r + 1;
                }
                proof {
                    assert(rules1.take(rules1.len() as int) =~= rules1);
                    assert(rt * FORCE_PER_RULE <= MAX_FORCE);
                }
                let mut moved = p;
                moved.update_particle(fx, fy, w_milli, h_milli, self.damping_div, &mut self.rng);
                out.push(moved);
                i = i + 1;
            }
            let ghost im = out@;
            let mut kids_k = all_kids.remove(0);
            let ghost parents_k = tick_parents(slots0, rules1, k2 as int);
            let ghost kids_seq = kids_k@;
            proof {
                assert(kids_match(parents_k, kids_seq));
            }
            if births_on {
                out.append(&mut kids_k);
            }
            let ghost used_kids = if births_on {
                kids_seq
            } else {
                Seq::<Particle>::empty()
            };
            proof {
                if !births_on {
                    assert(out@ =~= im + Seq::<Particle>::empty());
                }
                assert(out@ == im + used_kids);
            }
            let mut pg = ParticleGroup::new(out);
            proof {
                lemma_tick_parents_members(slots0, rules1, k2 as int);
                assert forall|j: int| 0 <= j < pg.group@.len() implies (#[trigger] pg.group@[
                j]).life_force > i32::MIN by {
                    if j < im.len() {
                        assert(members@[j].integrated(
                            im[j],
                            tick_force_x(members@[j], slots0, rules1, k2 as int, cutoff_milli as int),
                            tick_force_y(members@[j], slots0, rules1, k2 as int, cutoff_milli as int),
                            w_milli as int,
                            h_milli as int,
                            div,
                        ));
                        assert(inhabitant(members@[j], w_milli as int, h_milli as int, n as int));
                    } else {
                        assert(child_of(parents_k[j - im.len()], used_kids[j - im.len()]));
                    }
                }
            }
            pg.lifecycle();
            let mut culled = pg.group;
            proof {
                let culled_s = culled@;
                assert(culled_s == cull_spec(im + used_kids));
                assert forall|j: int| 0 <= j < (im + used_kids).len() implies (#[trigger] (im
                    + used_kids)[j]).life_force > i32::MIN by {
                    if j < im.len() {
                        assert(inhabitant(members@[j], w_milli as int, h_milli as int, n as int));
                    } else {
                        assert(child_of(parents_k[j - im.len()], used_kids[j - im.len()]));
                    }
                }
                lemma_cull_len(im + used_kids);
                lemma_outliving_add(im, used_kids);
                assert forall|j: int| 0 <= j < im.len() implies (#[trigger] im[j]).life_force
                    == members@[j].life_force by {
                    assert(members@[j].integrated(
                        im[j],
                        tick_force_x(members@[j], slots0, rules1, k2 as int, cutoff_milli as int),
                        tick_force_y(members@[j], slots0, rules1, k2 as int, cutoff_milli as int),
                        w_milli as int,
                        h_milli as int,
                        div,
                    ));
                }
                lemma_outliving_pointwise(im, members@);
                assert forall|j: int| 0 <= j < used_kids.len() implies (#[trigger] used_kids[
                j]).life_force >= 2 by {
                    assert(child_of(parents_k[j], used_kids[j]));
                }
                lemma_outliving_all(used_kids);
                assert(culled_s.len() == outliving(group_of(slots0, k2 as int)) + (if births_on {
                    parents_k.len() as int
                } else {
                    0int
                }));
                // Each survivor is a valid inhabitant and a tick member.
                lemma_cull_props(im + used_kids);
                assert forall|c: int| 0 <= c < culled_s.len() implies inhabitant(
                    #[trigger] culled_s[c],
                    w_milli as int,
                    h_milli as int,
                    n as int,
                ) && tick_member(
                    culled_s[c],
                    slots0,
                    rules1,
                    w_milli as int,
                    h_milli as int,
                    div,
                    cutoff_milli as int,
                ) by {
                    let j = choose|j: int|
                        0 <= j < (im + used_kids).len() && culled_s[c] == aged((im + used_kids)[j]);
                    assert(culled_s[c].life_force > 0);
                    if j < im.len() {
                        let q = members@[j];
                        assert(q.integrated(
                            im[j],
                            tick_force_x(q, slots0, rules1, k2 as int, cutoff_milli as int),
                            tick_force_y(q, slots0, rules1, k2 as int, cutoff_milli as int),
                            w_milli as int,
                            h_milli as int,
                            div,
                        ));
                        assert(q.group == k2);
                        assert(im[j].bounded(w_milli as int, h_milli as int));
                        assert(culled_s[c] == aged(im[j]));
                        assert(tick_descendant(
                            q,
                            culled_s[c],
                            slots0,
                            rules1,
                            w_milli as int,
                            h_milli as int,
                            div,
                            cutoff_milli as int,
                        ));
                        assert(slots0.contains(q));
                        let jj = choose|jj: int| 0 <= jj < slots0.len() && slots0[jj] == q;
                        assert(tick_descendant(
                            slots0[jj],
                            culled_s[c],
                            slots0,
                            rules1,
                            w_milli as int,
                            h_milli as int,
                            div,
                            cutoff_milli as int,
                        ));
                    } else {
                        let idx = j - im.len();
                        assert(child_of(parents_k[idx], used_kids[idx]));
                        assert(group_of(slots0, k2 as int).contains(parents_k[idx]));
                        let pj = choose|pj: int|
                            0 <= pj < group_of(slots0, k2 as int).len() && group_of(
                                slots0,
                                k2 as int,
                            )[pj] == parents_k[idx];
                        assert(inhabitant(
                            group_of(slots0, k2 as int)[pj],
                            w_milli as int,
                            h_milli as int,
                            n as int,
                        ));
                        assert(parents_k[idx].group == k2);
                        assert(culled_s[c] == aged(used_kids[idx]));
                        assert(aged_child_of(parents_k[idx], culled_s[c]));
                        assert(tick_offspring(culled_s[c], slots0, rules1));
                    }
                }
                assert(alive_sum(slots0, k2 as int + 1) == alive_sum(slots0, k2 as int)
                    + outliving(group_of(slots0, k2 as int)));
                assert(tick_births(slots0, rules1, k2 as int + 1) == tick_births(
                    slots0,
                    rules1,
                    k2 as int,
                ) + parents_k.len());
            }
            flat.append(&mut culled);
            k2 = k2 + 1;
        }
        let survivors = flat.len();
        proof {
            assert(survivors as int == old(self).tick_survivors());
            lemma_alive_sum_bound(slots0, n as int);
            assert(survivors <= self.max_population);
        }
        self.store.commit(&flat);
        self.live_particle_count = self.store.slots.len();
        self.runs_with_life = self.runs_with_life + 1;
        proof {
            assert forall|i: int| 0 <= i < self.store.slots@.len() implies inhabitant(
                #[trigger] self.store.slots@[i],
                w_milli as int,
                h_milli as int,
                n as int,
            ) && tick_member(
                self.store.slots@[i],
                slots0,
                rules1,
                w_milli as int,
                h_milli as int,
                div,
                cutoff_milli as int,
            ) by {
                assert(flat@.contains(self.store.slots@[i]));
                let j = choose|j: int| 0 <= j < flat@.len() && flat@[j] == self.store.slots@[i];
                assert(inhabitant(flat@[j], w_milli as int, h_milli as int, n as int));
            }
        }
        survivors
    }

    /// Advances the world by one tick. If the tick's survivor count falls
    /// to or under the population floor, the world reseeds itself in full
    /// instead of continuing with a collapsed population; that reseed is
    /// part of the contract, not an error.
    pub fn update(&mut self)
        requires
            old(self).wf(),
            old(self).runs_with_life < u64::MAX,
        ensures
            final(self).wf(),
            final(self).same_config(*old(self)),
            final(self).live_particle_count == final(self).store.slots@.len(),
            old(self).tick_survivors() <= old(self).population_floor as int ==> final(self).runs_with_life == WARMUP_TICKS,
            old(self).tick_survivors() > old(self).population_floor as int ==> final(self).runs_with_life == old(self).runs_with_life + 1 && final(self).colours == old(self).colours && final(self).rules@ == old(self).pruned_rules() && final(self).store.slots@.len() <= old(self).tick_survivors() && forall|i: int|
                0 <= i < final(self).store.slots@.len() ==> tick_member(
                    #[trigger] final(self).store.slots@[i],
                    old(self).store.slots@,
                    old(self).pruned_rules(),
                    old(self).w_milli(),
                    old(self).h_milli(),
                    old(self).damping_div as int,
                    old(self).cutoff_milli(),
                ),
            no_spawn(old(self).rules@) && old(self).tick_survivors() > old(self).population_floor as int ==> final(self).store.slots@.len() <= old(self).store.slots@.len(),
    {
        proof {
            if no_spawn(old(self).rules@) {
                let pres = presence(old(self).store.slots@, old(self).n());
                crate::rule::lemma_prune_membership(old(self).rules@, pres);
                assert forall|i: int|
                    0 <= i < old(self).pruned_rules().len() implies (#[trigger] old(self).pruned_rules()[i]).effect == Effect::Nothing by {
                    let j = choose|j: int|
                        0 <= j < old(self).rules@.len() && old(self).rules@[j] == old(self).pruned_rules()[i];
                    assert(old(self).rules@[j].effect == Effect::Nothing);
                }
                lemma_mass_conservation(
                    old(self).store.slots@,
                    old(self).pruned_rules(),
                    old(self).n(),
                    old(self).births_allowed(),
                );
            }
        }
        let survivors = self.tick_step();
        if survivors <= self.population_floor {
            self.randomize();
        }
    }

    /// Reseeds the world in full: a fresh palette, a fresh population,
    /// a fresh rule matrix, and the warm-up ticks that keep the first
    /// visible frame from being degenerate.
    pub fn randomize(&mut self)
        requires
            old(self).config_wf(),
        ensures
            final(self).wf(),
            final(self).same_config(*old(self)),
            final(self).runs_with_life == WARMUP_TICKS,
            final(self).colours@.len() == final(self).num_of_particle_groups,
            final(self).live_particle_count == final(self).store.slots@.len(),
    {
        self.runs_with_life = 0;
        self.generate_particles();
        self.randomise_rules();
        let mut t: u64 = 0;
        while t < 3
            invariant
                0 <= t <= 3,
                self.wf(),
                self.same_config(*old(self)),
                self.runs_with_life == t,
                self.colours@.len() == self.num_of_particle_groups,
                self.live_particle_count == self.store.slots@.len(),
            decreases 3 - t,
        {
            let _ = self.tick_step();
            t = t + 1;
        }
    }

    /// A fresh world with the default tuning constants, seeded from the
    /// given pair, fully reseeded and warmed up.
    pub fn new_random(
        width: u32,
        height: u32,
        num_of_particle_groups: usize,
        seed: u64,
        inc: u64,
    ) -> (g: LifeGrid)
        requires
            1 <= width <= MAX_WORLD,
            1 <= height <= MAX_WORLD,
            1 <= num_of_particle_groups <= MAX_GROUPS,
        ensures
            g.wf(),
            g.width == width,
            g.height == height,
            g.num_of_particle_groups == num_of_particle_groups,
            g.max_particles_per_group == DEFAULT_MAX_PER_GROUP,
            g.population_floor == DEFAULT_POPULATION_FLOOR,
            g.cutoff == DEFAULT_CUTOFF,
            g.damping_div == DEFAULT_DAMPING_DIV,
            g.runs_with_life == WARMUP_TICKS,
            g.live_particle_count == g.store.slots@.len(),
    {
        let mut g = LifeGrid {
            width,
            height,
            num_of_particle_groups,
            colours: Vec::new(),
            rules: Vec::new(),
            store: SpatialStore::new(),
            live_particle_count: 0,
            runs_with_life: 0,
            max_particles_per_group: DEFAULT_MAX_PER_GROUP,
            population_floor: DEFAULT_POPULATION_FLOOR,
            max_population: MAX_NEIGHBOURS,
            cutoff: DEFAULT_CUTOFF,
            damping_div: DEFAULT_DAMPING_DIV,
            rng: pcg_seed(seed, inc),
        };
        proof {
            assert(g.n() * DEFAULT_MAX_PER_GROUP as int <= MAX_NEIGHBOURS as int)
                by (nonlinear_arith)
                requires
                    g.n() <= 1000,
            ;
        }
        g.randomize();
        g
    }
    /// The pixel cell a particle paints, as an index into a row-major
    /// frame.
    pub open spec fn cell_index(self, p: Particle) -> int {
        p.cell_y() * self.width as int + p.cell_x()
    }

    /// Some stored particle paints cell `c`.
    pub open spec fn covers(self, slots: Seq<Particle>, c: int) -> bool {
        exists|j: int| 0 <= j < slots.len() && self.cell_index(#[trigger] slots[j]) == c
    }

    /// Paints the current population into an RGBA frame: the frame is
    /// cleared to transparent black, then every stored particle's colour
    /// is written at the pixel of its cell (row-major, four bytes per
    /// pixel). The store holds at most one particle per cell, so the
    /// frame is exact: a cell shows the colour of its particle, or black.
    pub fn draw(&self, screen: &mut Vec<u8>)
        requires
            self.wf(),
            old(screen)@.len() == self.width as int * self.height as int * 4,
            self.width as int * self.height as int * 4 <= usize::MAX,
        ensures
            final(screen)@.len() == old(screen)@.len(),
            forall|j: int|
                0 <= j < self.store.slots@.len() ==> {
                    let c = self.cell_index(#[trigger] self.store.slots@[j]);
                    &&& final(screen)@[4 * c] == self.store.slots@[j].colour_rgba[0]
                    &&& final(screen)@[4 * c + 1] == self.store.slots@[j].colour_rgba[1]
                    &&& final(screen)@[4 * c + 2] == self.store.slots@[j].colour_rgba[2]
                    &&& final(screen)@[4 * c + 3] == self.store.slots@[j].colour_rgba[3]
                },
            forall|c: int|
                0 <= c < self.width as int * self.height as int && !self.covers(
                    self.store.slots@,
                    c,
                ) ==> final(screen)@[4 * c] == 0 && final(screen)@[4 * c + 1] == 0 && final(screen)@[4 * c + 2] == 0 && final(screen)@[4 * c + 3] == 0,
    {
        let w = self.width as usize;
        let h = self.height as usize;
        let mut b: usize = 0;
        let end = screen.len();
        while b < end
            invariant
                0 <= b <= end,
                end == screen@.len(),
                screen@.len() == old(screen)@.len(),
                forall|m: int| 0 <= m < b ==> screen@[m] == 0,
            decreases end - b,
        {
            screen.set(b, 0);
            b = b + 1;
        }
        let n_slots = self.store.slots.len();
        let mut j: usize = 0;
        proof {
            assert forall|c: int|
                0 <= c < self.width as int * self.height as int && !self.covers(
                    self.store.slots@.take(0),
                    c,
                ) implies screen@[4 * c] == 0 && screen@[4 * c + 1] == 0 && screen@[4 * c + 2]
                == 0 && screen@[4 * c + 3] == 0 by {
                assert(4 * c + 3 < screen@.len()) by (nonlinear_arith)
                    requires
                        0 <= c < self.width as int * self.height as int,
                        screen@.len() == self.width as int * self.height as int * 4,
                ;
            }
        }
        while j < n_slots
            invariant
                0 <= j <= n_slots,
                n_slots == self.store.slots@.len(),
                w == self.width as int,
                h == self.height as int,
                self.wf(),
                screen@.len() == old(screen)@.len(),
                old(screen)@.len() == self.width as int * self.height as int * 4,
                self.width as int * self.height as int * 4 <= usize::MAX,
                forall|m: int|
                    0 <= m < j ==> {
                        let c = self.cell_index(#[trigger] self.store.slots@[m]);
                        &&& screen@[4 * c] == self.store.slots@[m].colour_rgba[0]
                        &&& screen@[4 * c + 1] == self.store.slots@[m].colour_rgba[1]
                        &&& screen@[4 * c + 2] == self.store.slots@[m].colour_rgba[2]
                        &&& screen@[4 * c + 3] == self.store.slots@[m].colour_rgba[3]
                    },
                forall|c: int|
                    0 <= c < self.width as int * self.height as int && !self.covers(
                        self.store.slots@.take(j as int),
                        c,
                    ) ==> screen@[4 * c] == 0 && screen@[4 * c + 1] == 0 && screen@[4 * c + 2] == 0
                        && screen@[4 * c + 3] == 0,
            decreases n_slots - j,
        {
            let p = self.store.slots[j];
            proof {
                assert(inhabitant(p, self.w_milli(), self.h_milli(), self.n()));
                vstd::arithmetic::div_mod::lemma_multiply_divide_lt(
                    p.x as int,
                    self.width as int,
                    SCALE as int,
                );
                vstd::arithmetic::div_mod::lemma_multiply_divide_lt(
                    p.y as int,
                    self.height as int,
                    SCALE as int,
                );
                vstd::arithmetic::div_mod::lemma_div_pos_is_pos(p.x as int, SCALE as int);
                vstd::arithmetic::div_mod::lemma_div_pos_is_pos(p.y as int, SCALE as int);
            }
            let xt = (p.x / SCALE) as usize;
            let yt = (p.y / SCALE) as usize;
            proof {
                assert(xt < w && yt < h);
                assert(yt * w + xt < h * w) by (nonlinear_arith)
                    requires
                        xt < w && yt < h && 0 <= xt && 0 <= yt && w >= 1 && h >= 1,
                ;
                assert(h * w * 4 == self.width as int * self.height as int * 4)
                    by (nonlinear_arith)
                    requires
                        w == self.width as int && h == self.height as int,
                ;
                assert((yt * w + xt) * 4 + 3 < h * w * 4) by (nonlinear_arith)
                    requires
                        yt * w + xt < h * w,
                ;
            }
            let idx = (yt * w + xt) * 4;
            let colour = p.colour_rgba;
            let ghost pre_screen = screen@;
            screen.set(idx, colour[0]);
            screen.set(idx + 1, colour[1]);
            screen.set(idx + 2, colour[2]);
            screen.set(idx + 3, colour[3]);
            proof {
                let slots = self.store.slots@;
                let ci = self.cell_index(p);
                assert(idx == 4 * ci);
                // Earlier particles sit in other cells, so their bytes are
                // untouched; uncovered cells stay black.
                assert(distinct_keys(slots));
                assert forall|m: int| 0 <= m < j + 1 implies {
                    let c = self.cell_index(#[trigger] slots[m]);
                    &&& screen@[4 * c] == slots[m].colour_rgba[0]
                    &&& screen@[4 * c + 1] == slots[m].colour_rgba[1]
                    &&& screen@[4 * c + 2] == slots[m].colour_rgba[2]
                    &&& screen@[4 * c + 3] == slots[m].colour_rgba[3]
                } by {
                    if m < j {
                        let q = slots[m];
                        assert(pre_screen[4 * self.cell_index(q)] == q.colour_rgba[0]);
                        assert(pre_screen[4 * self.cell_index(q) + 1] == q.colour_rgba[1]);
                        assert(pre_screen[4 * self.cell_index(q) + 2] == q.colour_rgba[2]);
                        assert(pre_screen[4 * self.cell_index(q) + 3] == q.colour_rgba[3]);
                        let pj = slots[j as int];
                        assert(crate::store::pos_key(q) != crate::store::pos_key(pj));
                        let cm = self.cell_index(q);
                        let qx = q.cell_x();
                        let qy = q.cell_y();
                        let px = pj.cell_x();
                        let py = pj.cell_y();
                        let wd = self.width as int;
                        assert(inhabitant(q, self.w_milli(), self.h_milli(), self.n()));
                        assert(inhabitant(pj, self.w_milli(), self.h_milli(), self.n()));
                        let ht = self.height as int;
                        vstd::arithmetic::div_mod::lemma_multiply_divide_lt(q.x as int, wd, SCALE as int);
                        vstd::arithmetic::div_mod::lemma_multiply_divide_lt(pj.x as int, wd, SCALE as int);
                        vstd::arithmetic::div_mod::lemma_multiply_divide_lt(q.y as int, ht, SCALE as int);
                        vstd::arithmetic::div_mod::lemma_multiply_divide_lt(pj.y as int, ht, SCALE as int);
                        vstd::arithmetic::div_mod::lemma_div_pos_is_pos(q.x as int, SCALE as int);
                        vstd::arithmetic::div_mod::lemma_div_pos_is_pos(pj.x as int, SCALE as int);
                        vstd::arithmetic::div_mod::lemma_div_pos_is_pos(q.y as int, SCALE as int);
                        vstd::arithmetic::div_mod::lemma_div_pos_is_pos(pj.y as int, SCALE as int);
                        assert(qy * wd + qx != py * wd + px) by (nonlinear_arith)
                            requires
                                qx != px || qy != py,
                                0 <= qx < wd,
                                0 <= px < wd,
                        ;
                        assert(0 <= cm < wd * ht) by (nonlinear_arith)
                            requires
                                cm == qy * wd + qx,
                                0 <= qx < wd,
                                0 <= qy < ht,
                        ;
                        assert(wd * ht * 4 == screen@.len());
                        assert(cm != ci);
                        assert(screen@[4 * cm] == pre_screen[4 * cm]);
                        assert(screen@[4 * cm + 1] == pre_screen[4 * cm + 1]);
                        assert(screen@[4 * cm + 2] == pre_screen[4 * cm + 2]);
                        assert(screen@[4 * cm + 3] == pre_screen[4 * cm + 3]);
                    } else {
                        assert(slots[m] == p);
                        assert(screen@[4 * ci] == colour[0]);
                        assert(screen@[4 * ci + 1] == colour[1]);
                        assert(screen@[4 * ci + 2] == colour[2]);
                        assert(screen@[4 * ci + 3] == colour[3]);
                    }
                }
                assert forall|c: int|
                    #![trigger self.covers(slots.take(j as int + 1), c)]
                    0 <= c < self.width as int * self.height as int && !self.covers(
                        slots.take(j as int + 1),
                        c,
                    ) implies screen@[4 * c] == 0 && screen@[4 * c + 1] == 0 && screen@[4 * c + 2]
                    == 0 && screen@[4 * c + 3] == 0 by {
                    assert(forall|m: int|
                        0 <= m < j ==> slots.take(j as int)[m] == slots.take(j as int + 1)[m]);
                    assert(!self.covers(slots.take(j as int), c));
                    assert(self.cell_index(slots.take(j as int + 1)[j as int]) == ci);
                    assert(c != ci);
                }
            }
            j = j + 1;
        }
        proof {
            assert(self.store.slots@.take(n_slots as int) =~= self.store.slots@);
        }
    }
}

/// The tick's children collected so far match their parents pointwise.
pub open spec fn kids_match(parents: Seq<Particle>, kids: Seq<Particle>) -> bool {
    &&& kids.len() == parents.len()
    &&& forall|j: int| 0 <= j < kids.len() ==> child_of(parents[j], #[trigger] kids[j])
}

/// A lifecycle step keeps exactly the members that outlive the decrement.
proof fn lemma_cull_len(s: Seq<Particle>)
    requires
        forall|i: int| 0 <= i < s.len() ==> (#[trigger] s[i]).life_force > i32::MIN,
    ensures
        cull_spec(s).len() == outliving(s),
    decreases s.len(),
{
    reveal(Seq::filter);
    if s.len() > 0 {
        lemma_cull_len(s.drop_last());
    }
}

/// Two populations with pointwise equal life forces have the same number
/// of members outliving a decrement.
proof fn lemma_outliving_pointwise(s: Seq<Particle>, t: Seq<Particle>)
    requires
        s.len() == t.len(),
        forall|i: int| 0 <= i < s.len() ==> (#[trigger] s[i]).life_force == t[i].life_force,
    ensures
        outliving(s) == outliving(t),
    decreases s.len(),
{
    reveal(Seq::filter);
    if s.len() > 0 {
        lemma_outliving_pointwise(s.drop_last(), t.drop_last());
        assert(s.last().life_force == t[s.len() - 1].life_force);
    }
}

/// A population whose members all hold at least two ticks of life force
/// outlives a decrement in full.
proof fn lemma_outliving_all(s: Seq<Particle>)
    requires
        forall|i: int| 0 <= i < s.len() ==> (#[trigger] s[i]).life_force >= 2,
    ensures
        outliving(s) == s.len(),
    decreases s.len(),
{
    reveal(Seq::filter);
    if s.len() > 0 {
        lemma_outliving_all(s.drop_last());
    }
}

/// Outliving counts add over concatenation.
proof fn lemma_outliving_add(a: Seq<Particle>, b: Seq<Particle>)
    ensures
        outliving(a + b) == outliving(a) + outliving(b),
{
    broadcast use vstd::prelude::Seq::filter_distributes_over_add;

}

/// Over an empty population every group is empty.
proof fn lemma_alive_sum_empty(n: int)
    ensures
        alive_sum(Seq::<Particle>::empty(), n) == 0,
    decreases n,
{
    reveal(Seq::filter);
    if n > 0 {
        lemma_alive_sum_empty(n - 1);
        assert(group_of(Seq::<Particle>::empty(), n - 1) =~= Seq::<Particle>::empty());
    }
}

/// Appending one particle raises the groups' combined outliving count by
/// at most one: only the group the particle belongs to sees it.
proof fn lemma_alive_sum_push(s: Seq<Particle>, x: Particle, n: int)
    ensures
        alive_sum(s.push(x), n) == alive_sum(s, n) + if 0 <= x.group < n && x.life_force > 1 {
            1int
        } else {
            0int
        },
    decreases n,
{
    broadcast use vstd::prelude::Seq::lemma_filter_push;

    if n > 0 {
        lemma_alive_sum_push(s, x, n - 1);
        let pred = |p: Particle| p.life_force > 1;
        if x.group == n - 1 {
            assert(group_of(s.push(x), n - 1) == group_of(s, n - 1).push(x));
        } else {
            assert(group_of(s.push(x), n - 1) == group_of(s, n - 1));
        }
    }
}

/// The groups partition the population, so the members that outlive a
/// decrement never outnumber the population itself. This is the heart of
/// mass conservation.
pub proof fn lemma_alive_sum_bound(slots: Seq<Particle>, n: int)
    ensures
        alive_sum(slots, n) <= slots.len(),
    decreases slots.len(),
{
    if slots.len() == 0 {
        assert(slots =~= Seq::<Particle>::empty());
        lemma_alive_sum_empty(n);
    } else {
        let s = slots.drop_last();
        let x = slots.last();
        lemma_alive_sum_bound(s, n);
        lemma_alive_sum_push(s, x, n);
        assert(s.push(x) =~= slots);
    }
}

/// A rule list without spawn effects owes no children to any group.
pub proof fn lemma_no_spawn_no_parents(slots: Seq<Particle>, rules: Seq<Rule>, k: int)
    requires
        no_spawn(rules),
    ensures
        tick_parents(slots, rules, k) =~= Seq::<Particle>::empty(),
    decreases rules.len(),
{
    if rules.len() > 0 {
        assert(forall|i: int|
            0 <= i < rules.drop_last().len() ==> (#[trigger] rules.drop_last()[i]).effect
                == Effect::Nothing);
        lemma_no_spawn_no_parents(slots, rules.drop_last(), k);
        assert(rules[rules.len() - 1].effect == Effect::Nothing);
    }
}

proof fn lemma_no_spawn_no_births(slots: Seq<Particle>, rules: Seq<Rule>, n: int)
    requires
        no_spawn(rules),
    ensures
        tick_births(slots, rules, n) == 0,
    decreases n,
{
    if n > 0 {
        lemma_no_spawn_no_births(slots, rules, n - 1);
        lemma_no_spawn_no_parents(slots, rules, n - 1);
    }
}

/// Mass conservation: under a rule list with every effect none, a tick
/// only loses particles, never gains them, whatever the random draws do.
pub proof fn lemma_mass_conservation(
    slots: Seq<Particle>,
    rules: Seq<Rule>,
    n: int,
    births_on: bool,
)
    requires
        no_spawn(rules),
    ensures
        total_survivors(slots, rules, n, births_on) <= slots.len(),
{
    lemma_alive_sum_bound(slots, n);
    lemma_no_spawn_no_births(slots, rules, n);
}

/// A group that is the source of no rule accumulates no force: force is
/// directional, and a rule moves only its first group.
pub proof fn lemma_no_source_no_force(
    p: Particle,
    slots: Seq<Particle>,
    rules: Seq<Rule>,
    k: int,
    cutoff_milli: int,
)
    requires
        forall|i: int| 0 <= i < rules.len() ==> (#[trigger] rules[i]).particle_group_one != k,
    ensures
        tick_force_x(p, slots, rules, k, cutoff_milli) == 0,
        tick_force_y(p, slots, rules, k, cutoff_milli) == 0,
    decreases rules.len(),
{
    if rules.len() > 0 {
        assert(forall|i: int|
            0 <= i < rules.drop_last().len() ==> (#[trigger] rules.drop_last()[
                i
            ]).particle_group_one != k);
        lemma_no_source_no_force(p, slots, rules.drop_last(), k, cutoff_milli);
        assert(rules[rules.len() - 1].particle_group_one != k);
    }
}

/// Every member of a group partition carries the group's identity, is a
/// valid inhabitant, and comes from the store.
proof fn lemma_group_members(slots: Seq<Particle>, k: int, w_milli: int, h_milli: int, n: int)
    requires
        forall|i: int| 0 <= i < slots.len() ==> inhabitant(#[trigger] slots[i], w_milli, h_milli, n),
    ensures
        group_of(slots, k).len() <= slots.len(),
        forall|j: int|
            0 <= j < group_of(slots, k).len() ==> inhabitant(
                #[trigger] group_of(slots, k)[j],
                w_milli,
                h_milli,
                n,
            ),
        forall|j: int|
            0 <= j < group_of(slots, k).len() ==> (#[trigger] group_of(slots, k)[j]).group == k,
        forall|j: int|
            0 <= j < group_of(slots, k).len() ==> slots.contains(#[trigger] group_of(slots, k)[j]),
{
    broadcast use vstd::prelude::Seq::lemma_filter_len;
    broadcast use vstd::prelude::Seq::lemma_index_contains;
    broadcast use vstd::prelude::Seq::lemma_filter_contains_rev;
    broadcast use vstd::prelude::Seq::lemma_filter_pred;

    let g = group_of(slots, k);
    assert forall|j: int| 0 <= j < g.len() implies slots.contains(#[trigger] g[j]) && g[j].group
        == k && inhabitant(g[j], w_milli, h_milli, n) by {
        assert(g.contains(g[j]));
        assert(slots.contains(g[j]));
        let i = choose|i: int| 0 <= i < slots.len() && slots[i] == g[j];
        assert(inhabitant(slots[i], w_milli, h_milli, n));
    }
}

/// Every parent a tick owes group `k` is a member of group `k`.
proof fn lemma_tick_parents_members(slots: Seq<Particle>, rules: Seq<Rule>, k: int)
    ensures
        forall|j: int|
            0 <= j < tick_parents(slots, rules, k).len() ==> group_of(slots, k).contains(
                #[trigger] tick_parents(slots, rules, k)[j],
            ),
    decreases rules.len(),
{
    if rules.len() > 0 {
        lemma_tick_parents_members(slots, rules.drop_last(), k);
        let head = tick_parents(slots, rules.drop_last(), k);
        let whole = tick_parents(slots, rules, k);
        if rules.last().particle_group_one == k && rules.last().effect == Effect::SpawnChildren {
            lemma_spawn_parents_membership(
                group_of(slots, k),
                group_of(slots, rules.last().particle_group_two as int),
            );
        }
        assert forall|j: int| 0 <= j < whole.len() implies group_of(slots, k).contains(
            #[trigger] whole[j],
        ) by {
            if j < head.len() {
                assert(whole[j] == head[j]);
            }
        }
    }
}

/// With no rule sourced at group `k`, the tick owes it no children.
pub proof fn lemma_no_source_no_parents(slots: Seq<Particle>, rules: Seq<Rule>, k: int)
    requires
        forall|i: int| 0 <= i < rules.len() ==> (#[trigger] rules[i]).particle_group_one != k,
    ensures
        tick_parents(slots, rules, k) =~= Seq::<Particle>::empty(),
    decreases rules.len(),
{
    if rules.len() > 0 {
        assert(forall|i: int|
            0 <= i < rules.drop_last().len() ==> (#[trigger] rules.drop_last()[
                i
            ]).particle_group_one != k);
        lemma_no_source_no_parents(slots, rules.drop_last(), k);
        assert(rules[rules.len() - 1].particle_group_one != k);
    }
}

/// Force is directional: rule (A to B, g) moves A alone, so having it
/// says nothing of (B to A, g). After a tick under a rule list in which
/// group `k` sources no rule, every committed particle of group `k` came
/// from a pre-tick particle of group `k` whose life force it continues,
/// and if that particle was at rest it has not moved and is still at
/// rest: with no rule sourced at its group, a tick neither spawns into
/// the group nor pushes it.
pub proof fn lemma_force_is_directional(
    p: Particle,
    slots: Seq<Particle>,
    rules: Seq<Rule>,
    w_milli: int,
    h_milli: int,
    damping_div: int,
    cutoff_milli: int,
)
    requires
        forall|i: int|
            0 <= i < rules.len() ==> (#[trigger] rules[i]).particle_group_one != p.group as int,
        tick_member(p, slots, rules, w_milli, h_milli, damping_div, cutoff_milli),
        forall|i: int| 0 <= i < slots.len() ==> (#[trigger] slots[i]).life_force >= 1,
        damping_div >= 2,
    ensures
        exists|j: int|
            0 <= j < slots.len() && (#[trigger] slots[j]).group == p.group && p.life_force
                == slots[j].life_force - 1 && (slots[j].vx == 0 && slots[j].vy == 0 && 0 <= slots[
            j].x < w_milli && 0 <= slots[j].y < h_milli ==> p.x == slots[j].x && p.y == slots[j].y
                && p.vx == 0 && p.vy == 0),
{
    lemma_no_source_no_parents(slots, rules, p.group as int);
    assert(!tick_offspring(p, slots, rules));
    let j = choose|j: int|
        0 <= j < slots.len() && tick_descendant(
            #[trigger] slots[j],
            p,
            slots,
            rules,
            w_milli,
            h_milli,
            damping_div,
            cutoff_milli,
        );
    let q = slots[j];
    lemma_no_source_no_force(q, slots, rules, q.group as int, cutoff_milli);
    let mid = choose|mid: Particle|
        q.integrated(
            mid,
            tick_force_x(q, slots, rules, q.group as int, cutoff_milli),
            tick_force_y(q, slots, rules, q.group as int, cutoff_milli),
            w_milli,
            h_milli,
            damping_div,
        ) && p == aged(mid);
    assert(q.group == p.group);
    assert(p.life_force == q.life_force - 1);
    if q.vx == 0 && q.vy == 0 && 0 <= q.x < w_milli && 0 <= q.y < h_milli {
        assert(tdiv(0, damping_div) == 0) by {
            assert(0int / damping_div == 0) by (nonlinear_arith)
                requires
                    damping_div >= 1,
            ;
        }
        assert(mid.x == q.x && mid.vx == 0);
        assert(mid.y == q.y && mid.vy == 0);
    }
}

} // verus!
