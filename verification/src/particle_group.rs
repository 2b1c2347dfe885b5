//! A particle group: the particles sharing one group identity during one
//! tick, with the lifecycle step and the application of a single rule
//! (overlap births followed by the force pass) against a snapshot of
//! another group.

use vstd::prelude::*;

use crate::force::accumulate_force;
use crate::force::net_force_x;
use crate::force::net_force_y;
use crate::particle::LIFE_MAX;
use crate::particle::LIFE_MIN;
use crate::particle::MAX_NEIGHBOURS;
use crate::particle::MAX_WORLD;
use crate::particle::Particle;
use crate::particle::SCALE;
use crate::rule::Effect;

verus! {

/// A particle aged by one tick.
pub open spec fn aged(p: Particle) -> Particle {
    Particle { life_force: (p.life_force - 1) as i32, ..p }
}

/// The survivors of one lifecycle step over `s`, in order: every particle
/// ages by one tick and those whose life force drops to or below zero are
/// removed.
pub open spec fn cull_spec(s: Seq<Particle>) -> Seq<Particle>
    decreases s.len(),
{
    if s.len() == 0 {
        Seq::empty()
    } else {
        let rest = cull_spec(s.drop_last());
        let q = aged(s.last());
        if q.life_force > 0 {
            rest.push(q)
        } else {
            rest
        }
    }
}

/// Lifecycle termination and lineage: the step never grows the group,
/// every survivor is strictly alive, and every survivor is an aged copy of
/// a member of the input.
pub proof fn lemma_cull_props(s: Seq<Particle>)
    ensures
        cull_spec(s).len() <= s.len(),
        forall|i: int| 0 <= i < cull_spec(s).len() ==> (#[trigger] cull_spec(s)[i]).life_force > 0,
        forall|i: int|
            0 <= i < cull_spec(s).len() ==> exists|j: int|
                0 <= j < s.len() && #[trigger] cull_spec(s)[i] == aged(s[j]),
    decreases s.len(),
{
    if s.len() > 0 {
        lemma_cull_props(s.drop_last());
        let rest = cull_spec(s.drop_last());
        assert forall|i: int| 0 <= i < cull_spec(s).len() implies exists|j: int|
            0 <= j < s.len() && #[trigger] cull_spec(s)[i] == aged(s[j]) by {
            if i < rest.len() {
                let j = choose|j: int| 0 <= j < s.drop_last().len() && rest[i] == aged(
                    s.drop_last()[j],
                );
                assert(s.drop_last()[j] == s[j]);
                assert(cull_spec(s)[i] == aged(s[j]));
            } else {
                assert(cull_spec(s)[i] == aged(s[s.len() - 1]));
            }
        }
    }
}

/// The parents owed children by the overlap pass of one rule: for each
/// pair of an `a` member and a `b` member at equal rounded positions, the
/// `a` member repeated `birth_rate` times, in pass order.
pub open spec fn row_parents(p: Particle, b: Seq<Particle>) -> Seq<Particle>
    decreases b.len(),
{
    if b.len() == 0 {
        Seq::empty()
    } else {
        row_parents(p, b.drop_last()) + (if p.overlaps(b.last()) {
            Seq::new(p.birth_rate as nat, |k: int| p)
        } else {
            Seq::empty()
        })
    }
}

pub open spec fn spawn_parents(a: Seq<Particle>, b: Seq<Particle>) -> Seq<Particle>
    decreases a.len(),
{
    if a.len() == 0 {
        Seq::empty()
    } else {
        spawn_parents(a.drop_last(), b) + row_parents(a.last(), b)
    }
}

/// The parents owed children under a given effect: none unless the rule
/// spawns on overlap.
pub open spec fn spawned_parents(a: Seq<Particle>, b: Seq<Particle>, effect: Effect) -> Seq<
    Particle,
> {
    if effect == Effect::SpawnChildren {
        spawn_parents(a, b)
    } else {
        Seq::empty()
    }
}

/// A child inherits its parent's group, colour and birth rate, spawns at
/// the parent's exact position with zero velocity, and starts with a fresh
/// life force.
pub open spec fn child_of(parent: Particle, c: Particle) -> bool {
    &&& c.group == parent.group
    &&& c.colour_rgba == parent.colour_rgba
    &&& c.birth_rate == parent.birth_rate
    &&& c.x == parent.x && c.y == parent.y
    &&& c.vx == 0 && c.vy == 0
    &&& LIFE_MIN <= c.life_force < LIFE_MAX
}

/// Every parent in the spawn list is a member of `a`.
pub proof fn lemma_row_parents_membership(p: Particle, b: Seq<Particle>)
    ensures
        forall|k: int| 0 <= k < row_parents(p, b).len() ==> #[trigger] row_parents(p, b)[k] == p,
    decreases b.len(),
{
    if b.len() > 0 {
        lemma_row_parents_membership(p, b.drop_last());
        let head = row_parents(p, b.drop_last());
        assert forall|k: int| 0 <= k < row_parents(p, b).len() implies #[trigger] row_parents(
            p,
            b,
        )[k] == p by {
            if k < head.len() {
                assert(row_parents(p, b)[k] == head[k]);
            }
        }
    }
}

pub proof fn lemma_spawn_parents_membership(a: Seq<Particle>, b: Seq<Particle>)
    ensures
        forall|k: int|
            0 <= k < spawn_parents(a, b).len() ==> a.contains(#[trigger] spawn_parents(a, b)[k]),
    decreases a.len(),
{
    if a.len() > 0 {
        lemma_spawn_parents_membership(a.drop_last(), b);
        lemma_row_parents_membership(a.last(), b);
        assert forall|k: int| 0 <= k < spawn_parents(a, b).len() implies a.contains(
            #[trigger] spawn_parents(a, b)[k],
        ) by {
            let head = spawn_parents(a.drop_last(), b);
            if k < head.len() {
                let j = choose|j: int| 0 <= j < a.drop_last().len() && a.drop_last()[j] == head[k];
                assert(a[j] == head[k]);
            } else {
                assert(spawn_parents(a, b)[k] == a.last());
                assert(a[a.len() - 1] == a.last());
            }
        }
    }
}

#[derive(Clone, Debug)]
pub struct ParticleGroup {
    pub group: Vec<Particle>,
}

impl ParticleGroup {
    pub fn new(group: Vec<Particle>) -> (g: ParticleGroup)
        ensures
            g.group == group,
    {
        ParticleGroup { group }
    }

    /// One lifecycle step: every member ages by a tick and the dead are
    /// removed, preserving the order of the survivors.
    pub fn lifecycle(&mut self)
        requires
            forall|i: int|
                0 <= i < old(self).group@.len() ==> (#[trigger] old(self).group@[i]).life_force
                    > i32::MIN,
        ensures
            final(self).group@ == cull_spec(old(self).group@),
            final(self).group@.len() <= old(self).group@.len(),
            forall|i: int|
                0 <= i < final(self).group@.len() ==> (#[trigger] final(self).group@[i]).is_alive(),
    {
        proof {
            lemma_cull_props(old(self).group@);
        }
        let n = self.group.len();
        let mut survivors: Vec<Particle> = Vec::new();
        let mut i: usize = 0;
        proof {
            assert(old(self).group@.take(0) =~= Seq::<Particle>::empty());
        }
        while i < n
            invariant
                0 <= i <= n,
                n == self.group@.len(),
                self.group@ == old(self).group@,
                forall|k: int|
                    0 <= k < old(self).group@.len() ==> (#[trigger] old(
                        self,
                    ).group@[k]).life_force > i32::MIN,
                survivors@ == cull_spec(old(self).group@.take(i as int)),
            decreases n - i,
        {
            let mut p = self.group[i];
            proof {
                assert(old(self).group@.take(i as int + 1).drop_last() =~= old(
                    self,
                ).group@.take(i as int));
                assert(old(self).group@.take(i as int + 1).last() == old(self).group@[i as int]);
            }
            let alive = p.lifecycle();
            if alive {
                survivors.push(p);
            }
            i = i + 1;
        }
        proof {
            assert(old(self).group@.take(n as int) =~= old(self).group@);
        }
        self.group = survivors;
    }

    /// The overlap pass of one spawning rule: collects the children owed by
    /// every overlapping pair between the group and a snapshot of the other
    /// group. Children inherit colour, group and birth rate, spawn at the
    /// parent's position with zero velocity and a fresh life force.
    pub(crate) fn collect_children(
        a: &Vec<Particle>,
        b: &Vec<Particle>,
        rng: &mut randomize::PCG32,
    ) -> (kids: Vec<Particle>)
        requires
            forall|i: int|
                0 <= i < a@.len() ==> 0 <= #[trigger] a@[i].x <= MAX_WORLD as i64 * SCALE && 0 <= a@[i].y
                    <= MAX_WORLD as i64 * SCALE,
            forall|j: int|
                0 <= j < b@.len() ==> 0 <= #[trigger] b@[j].x <= MAX_WORLD as i64 * SCALE && 0 <= b@[j].y
                    <= MAX_WORLD as i64 * SCALE,
        ensures
            kids@.len() == spawn_parents(a@, b@).len(),
            forall|k: int|
                0 <= k < kids@.len() ==> child_of(spawn_parents(a@, b@)[k], #[trigger] kids@[k]),
    {
        let mut kids: Vec<Particle> = Vec::new();
        let mut i: usize = 0;
        proof {
            assert(a@.take(0) =~= Seq::<Particle>::empty());
        }
        while i < a.len()
            invariant
                0 <= i <= a@.len(),
                forall|k: int|
                    0 <= k < a@.len() ==> 0 <= #[trigger] a@[k].x <= MAX_WORLD as i64 * SCALE && 0
                        <= a@[k].y <= MAX_WORLD as i64 * SCALE,
                forall|k: int|
                    0 <= k < b@.len() ==> 0 <= #[trigger] b@[k].x <= MAX_WORLD as i64 * SCALE && 0
                        <= b@[k].y <= MAX_WORLD as i64 * SCALE,
                kids@.len() == spawn_parents(a@.take(i as int), b@).len(),
                forall|k: int|
                    0 <= k < kids@.len() ==> child_of(
                        spawn_parents(a@.take(i as int), b@)[k],
                        #[trigger] kids@[k],
                    ),
            decreases a@.len() - i,
        {
            let p = a[i];
            let ghost head = spawn_parents(a@.take(i as int), b@);
            let mut j: usize = 0;
            proof {
                assert(b@.take(0) =~= Seq::<Particle>::empty());
                assert(head + row_parents(p, b@.take(0)) =~= head);
            }
            while j < b.len()
                invariant
                    0 <= j <= b@.len(),
                    0 <= i < a@.len(),
                    p == a@[i as int],
                    0 <= p.x <= MAX_WORLD as i64 * SCALE,
                    0 <= p.y <= MAX_WORLD as i64 * SCALE,
                    forall|k: int|
                        0 <= k < b@.len() ==> 0 <= #[trigger] b@[k].x <= MAX_WORLD as i64 * SCALE
                            && 0 <= b@[k].y <= MAX_WORLD as i64 * SCALE,
                    head == spawn_parents(a@.take(i as int), b@),
                    kids@.len() == (head + row_parents(p, b@.take(j as int))).len(),
                    forall|k: int|
                        0 <= k < kids@.len() ==> child_of(
                            (head + row_parents(p, b@.take(j as int)))[k],
                            #[trigger] kids@[k],
                        ),
                decreases b@.len() - j,
            {
                let q = b[j];
                proof {
                    assert(b@.take(j as int + 1).drop_last() =~= b@.take(j as int));
                    assert(b@.take(j as int + 1).last() == b@[j as int]);
                }
                let dx = p.x - q.x;
                let dy = p.y - q.y;
                if -(SCALE / 2) < dx && dx < SCALE / 2 && -(SCALE / 2) < dy && dy < SCALE / 2 {
                    assert(p.overlaps(q));
                    let ghost mid = head + row_parents(p, b@.take(j as int));
                    let mut c: u8 = 0;
                    while c < p.birth_rate
                        invariant
                            0 <= c <= p.birth_rate,
                            kids@.len() == mid.len() + c,
                            forall|k: int|
                                0 <= k < mid.len() ==> child_of(mid[k], #[trigger] kids@[k]),
                            forall|k: int|
                                mid.len() <= k < kids@.len() ==> child_of(p, #[trigger] kids@[k]),
                        decreases p.birth_rate - c,
                    {
                        let child = Particle::new(
                            p.group,
                            p.x,
                            p.y,
                            0,
                            0,
                            p.colour_rgba,
                            p.birth_rate,
                            rng,
                        );
                        kids.push(child);
                        c = c + 1;
                    }
                    proof {
                        let row1 = row_parents(p, b@.take(j as int + 1));
                        assert(row1 == row_parents(p, b@.take(j as int)) + Seq::new(
                            p.birth_rate as nat,
                            |k: int| p,
                        ));
                        assert(kids@.len() == (head + row1).len());
                        assert forall|k: int| 0 <= k < kids@.len() implies child_of(
                            (head + row1)[k],
                            #[trigger] kids@[k],
                        ) by {
                            if k < mid.len() {
                                assert((head + row1)[k] == mid[k]);
                            } else {
                                assert((head + row1)[k] == p);
                            }
                        }
                    }
                } else {
                    proof {
                        assert(!p.overlaps(q));
                        assert(row_parents(p, b@.take(j as int + 1)) == row_parents(
                            p,
                            b@.take(j as int),
                        ) + Seq::<Particle>::empty());
                        assert(head + row_parents(p, b@.take(j as int + 1)) =~= head + row_parents(
                            p,
                            b@.take(j as int),
                        ));
                    }
                }
                j = j + 1;
            }
            proof {
                assert(b@.take(b@.len() as int) =~= b@);
                assert(a@.take(i as int + 1).drop_last() =~= a@.take(i as int));
                assert(a@.take(i as int + 1).last() == a@[i as int]);
                assert(spawn_parents(a@.take(i as int + 1), b@) == spawn_parents(
                    a@.take(i as int),
                    b@,
                ) + row_parents(p, b@));
            }
            i = i + 1;
        }
        proof {
            assert(a@.take(a@.len() as int) =~= a@);
        }
        kids
    }

    /// Applies one rule against a snapshot of the other group: first the
    /// overlap pass appends the children the rule owes, then the force
    /// pass integrates every pre-existing member under the accumulated
    /// force from the snapshot. Children take no part in the force pass.
    pub fn apply_rule(
        &mut self,
        rule_g: u32,
        other_group: &Vec<Particle>,
        rule_effect: Effect,
        cutoff_milli: i64,
        width_milli: i64,
        height_milli: i64,
        damping_div: i64,
        rng: &mut randomize::PCG32,
    )
        requires
            SCALE <= width_milli <= MAX_WORLD as i64 * SCALE,
            SCALE <= height_milli <= MAX_WORLD as i64 * SCALE,
            2 <= damping_div,
            rule_g < SCALE,
            other_group@.len() <= MAX_NEIGHBOURS,
            forall|i: int|
                0 <= i < old(self).group@.len() ==> (#[trigger] old(self).group@[i]).bounded(
                    width_milli as int,
                    height_milli as int,
                ),
            forall|i: int|
                0 <= i < other_group@.len() ==> 0 <= #[trigger] other_group@[i].x <= MAX_WORLD
                    as i64 * SCALE && 0 <= other_group@[i].y <= MAX_WORLD as i64 * SCALE,
        ensures
            final(self).group@.len() == old(self).group@.len() + spawned_parents(
                old(self).group@,
                other_group@,
                rule_effect,
            ).len(),
            forall|i: int|
                0 <= i < old(self).group@.len() ==> (#[trigger] old(self).group@[i]).integrated(
                    final(self).group@[i],
                    net_force_x(
                        old(self).group@[i],
                        other_group@,
                        rule_g as int,
                        cutoff_milli as int,
                    ),
                    net_force_y(
                        old(self).group@[i],
                        other_group@,
                        rule_g as int,
                        cutoff_milli as int,
                    ),
                    width_milli as int,
                    height_milli as int,
                    damping_div as int,
                ),
            forall|k: int|
                0 <= k < spawned_parents(old(self).group@, other_group@, rule_effect).len()
                    ==> child_of(
                    spawned_parents(old(self).group@, other_group@, rule_effect)[k],
                    #[trigger] final(self).group@[old(self).group@.len() + k],
                ),
            forall|i: int|
                0 <= i < final(self).group@.len() ==> (#[trigger] final(self).group@[i]).bounded(
                    width_milli as int,
                    height_milli as int,
                ),
    {
        let ghost pre = self.group@;
        let mut kids: Vec<Particle> = if matches!(rule_effect, Effect::SpawnChildren) {
            Self::collect_children(&self.group, other_group, rng)
        } else {
            Vec::new()
        };
        let ghost parents = spawned_parents(pre, other_group@, rule_effect);
        let n = self.group.len();
        let mut i: usize = 0;
        while i < n
            invariant
                0 <= i <= n,
                n == self.group@.len(),
                self.group@.len() == pre.len(),
                SCALE <= width_milli <= MAX_WORLD as i64 * SCALE,
                SCALE <= height_milli <= MAX_WORLD as i64 * SCALE,
                2 <= damping_div,
                rule_g < SCALE,
                other_group@.len() <= MAX_NEIGHBOURS,
                forall|k: int|
                    0 <= k < other_group@.len() ==> 0 <= #[trigger] other_group@[k].x <= MAX_WORLD
                        as i64 * SCALE && 0 <= other_group@[k].y <= MAX_WORLD as i64 * SCALE,
                forall|k: int| i <= k < pre.len() ==> #[trigger] self.group@[k] == pre[k],
                forall|k: int|
                    0 <= k < pre.len() ==> (#[trigger] pre[k]).bounded(
                        width_milli as int,
                        height_milli as int,
                    ),
                forall|k: int|
                    0 <= k < i ==> (#[trigger] pre[k]).integrated(
                        self.group@[k],
                        net_force_x(pre[k], other_group@, rule_g as int, cutoff_milli as int),
                        net_force_y(pre[k], other_group@, rule_g as int, cutoff_milli as int),
                        width_milli as int,
                        height_milli as int,
                        damping_div as int,
                    ),
                forall|k: int|
                    0 <= k < i ==> (#[trigger] self.group@[k]).bounded(
                        width_milli as int,
                        height_milli as int,
                    ),
            decreases n - i,
        {
            let p = self.group[i];
            let f = accumulate_force(&p, other_group, rule_g, cutoff_milli);
            let mut moved = p;
            moved.update_particle(f.0, f.1, width_milli, height_milli, damping_div, rng);
            self.group.set(i, moved);
            i = i + 1;
        }
        proof {
            if rule_effect == Effect::SpawnChildren {
                lemma_spawn_parents_membership(pre, other_group@);
            }
            assert forall|k: int| 0 <= k < kids@.len() implies (#[trigger] kids@[k]).bounded(
                width_milli as int,
                height_milli as int,
            ) by {
                assert(child_of(parents[k], kids@[k]));
                assert(pre.contains(parents[k]));
                let j = choose|j: int| 0 <= j < pre.len() && pre[j] == parents[k];
                assert(pre[j].bounded(width_milli as int, height_milli as int));
            }
        }
        self.group.append(&mut kids);
    }
}

} // verus!
