//! The spatial store: the authoritative population between ticks, keyed by
//! the whole-unit cell a particle occupies. Committing a population clears
//! the store and inserts the given particles in order; when two land in
//! the same cell the later one wins, deterministically. Regrouping
//! partitions the stored particles by their group identity, preserving
//! store order.

use vstd::prelude::*;

use crate::particle::MAX_WORLD;
use crate::particle::Particle;
use crate::particle::SCALE;
use crate::particle_group::ParticleGroup;

verus! {

/// The store key of a particle: the whole-unit cell it occupies.
pub open spec fn pos_key(p: Particle) -> (int, int) {
    (p.cell_x(), p.cell_y())
}

/// No two particles of the sequence share a cell.
pub open spec fn distinct_keys(s: Seq<Particle>) -> bool {
    forall|i: int, j: int|
        0 <= i < j < s.len() ==> pos_key(#[trigger] s[i]) != pos_key(#[trigger] s[j])
}

/// Inserting one particle into the store: it replaces the particle already
/// holding its rounded position, if any, and is appended otherwise.
pub open spec fn insert_one(acc: Seq<Particle>, p: Particle) -> Seq<Particle> {
    if exists|i: int| 0 <= i < acc.len() && pos_key(#[trigger] acc[i]) == pos_key(p) {
        let i = choose|i: int| 0 <= i < acc.len() && pos_key(#[trigger] acc[i]) == pos_key(p);
        acc.update(i, p)
    } else {
        acc.push(p)
    }
}

/// Committing a population: inserting its particles left to right into an
/// accumulator.
pub open spec fn commit_spec(acc: Seq<Particle>, ps: Seq<Particle>) -> Seq<Particle>
    decreases ps.len(),
{
    if ps.len() == 0 {
        acc
    } else {
        commit_spec(insert_one(acc, ps[0]), ps.drop_first())
    }
}

/// One insertion keeps the keys distinct, grows the store by at most one,
/// and introduces no particle but the inserted one.
pub proof fn lemma_insert_one_props(acc: Seq<Particle>, p: Particle)
    requires
        distinct_keys(acc),
    ensures
        distinct_keys(insert_one(acc, p)),
        acc.len() <= insert_one(acc, p).len() <= acc.len() + 1,
        forall|i: int|
            0 <= i < insert_one(acc, p).len() ==> acc.contains(#[trigger] insert_one(acc, p)[i])
                || insert_one(acc, p)[i] == p,
{
    let out = insert_one(acc, p);
    if exists|i: int| 0 <= i < acc.len() && pos_key(#[trigger] acc[i]) == pos_key(p) {
        let i = choose|i: int| 0 <= i < acc.len() && pos_key(#[trigger] acc[i]) == pos_key(p);
        assert(out == acc.update(i, p));
        assert forall|a: int, b: int| 0 <= a < b < out.len() implies pos_key(#[trigger] out[a])
            != pos_key(#[trigger] out[b]) by {
            assert(pos_key(acc[a]) != pos_key(acc[b]));
        }
        assert forall|k: int| 0 <= k < out.len() implies acc.contains(#[trigger] out[k]) || out[k]
            == p by {
            if k != i {
                assert(out[k] == acc[k]);
            }
        }
    } else {
        assert forall|k: int| 0 <= k < out.len() implies acc.contains(#[trigger] out[k]) || out[k]
            == p by {
            if k < acc.len() {
                assert(out[k] == acc[k]);
            }
        }
    }
}

/// A committed store has distinct keys, holds no more particles than were
/// given, and holds nothing but given particles and prior contents.
pub proof fn lemma_commit_props(acc: Seq<Particle>, ps: Seq<Particle>)
    requires
        distinct_keys(acc),
    ensures
        distinct_keys(commit_spec(acc, ps)),
        commit_spec(acc, ps).len() <= acc.len() + ps.len(),
        forall|i: int|
            0 <= i < commit_spec(acc, ps).len() ==> acc.contains(
                #[trigger] commit_spec(acc, ps)[i],
            ) || ps.contains(commit_spec(acc, ps)[i]),
    decreases ps.len(),
{
    if ps.len() > 0 {
        let mid = insert_one(acc, ps[0]);
        lemma_insert_one_props(acc, ps[0]);
        lemma_commit_props(mid, ps.drop_first());
        let out = commit_spec(acc, ps);
        assert forall|i: int| 0 <= i < out.len() implies acc.contains(#[trigger] out[i])
            || ps.contains(out[i]) by {
            assert(mid.contains(out[i]) || ps.drop_first().contains(out[i]));
            if mid.contains(out[i]) {
                let k = choose|k: int| 0 <= k < mid.len() && mid[k] == out[i];
                assert(acc.contains(mid[k]) || mid[k] == ps[0]);
            } else {
                let k = choose|k: int|
                    0 <= k < ps.drop_first().len() && ps.drop_first()[k] == out[i];
                assert(ps[k + 1] == out[i]);
            }
        }
    }
}

/// The particles of `s` belonging to group `k`, in order.
pub open spec fn group_of(s: Seq<Particle>, k: int) -> Seq<Particle> {
    s.filter(|p: Particle| p.group == k)
}

/// The authoritative set of live particles between two ticks.
#[derive(Clone, Debug)]
pub struct SpatialStore {
    pub slots: Vec<Particle>,
}

impl SpatialStore {
    pub fn new() -> (s: SpatialStore)
        ensures
            s.slots@.len() == 0,
    {
        SpatialStore { slots: Vec::new() }
    }

    /// Clears the store and inserts exactly the given particles, keyed by
    /// their cell; on a collision the later particle wins.
    pub fn commit(&mut self, particles: &Vec<Particle>)
        requires
            forall|i: int|
                0 <= i < particles@.len() ==> 0 <= #[trigger] particles@[i].x <= MAX_WORLD as i64
                    * SCALE && 0 <= particles@[i].y <= MAX_WORLD as i64 * SCALE,
        ensures
            final(self).slots@ == commit_spec(Seq::empty(), particles@),
            distinct_keys(final(self).slots@),
            final(self).slots@.len() <= particles@.len(),
            forall|i: int|
                0 <= i < final(self).slots@.len() ==> particles@.contains(
                    #[trigger] final(self).slots@[i],
                ),
    {
        let mut slots: Vec<Particle> = Vec::new();
        let mut i: usize = 0;
        proof {
            assert(particles@.skip(0) =~= particles@);
        }
        while i < particles.len()
            invariant
                0 <= i <= particles@.len(),
                forall|k: int|
                    0 <= k < particles@.len() ==> 0 <= #[trigger] particles@[k].x <= MAX_WORLD
                        as i64 * SCALE && 0 <= particles@[k].y <= MAX_WORLD as i64 * SCALE,
                distinct_keys(slots@),
                forall|k: int|
                    0 <= k < slots@.len() ==> 0 <= #[trigger] slots@[k].x <= MAX_WORLD as i64
                        * SCALE && 0 <= slots@[k].y <= MAX_WORLD as i64 * SCALE,
                commit_spec(slots@, particles@.skip(i as int)) == commit_spec(
                    Seq::empty(),
                    particles@,
                ),
            decreases particles@.len() - i,
        {
            let ghost pre_slots = slots@;
            let p = particles[i];
            let px = p.x / SCALE;
            let py = p.y / SCALE;
            let mut found: bool = false;
            let mut at: usize = 0;
            let mut j: usize = 0;
            while j < slots.len()
                invariant
                    0 <= j <= slots@.len(),
                    0 <= i < particles@.len(),
                    p == particles@[i as int],
                    0 <= p.x && 0 <= p.y,
                    px == p.cell_x() && py == p.cell_y(),
                    forall|k: int|
                        0 <= k < slots@.len() ==> 0 <= #[trigger] slots@[k].x <= MAX_WORLD as i64
                            * SCALE && 0 <= slots@[k].y <= MAX_WORLD as i64 * SCALE,
                    !found ==> forall|k: int|
                        0 <= k < j ==> pos_key(#[trigger] slots@[k]) != pos_key(p),
                    found ==> at < slots@.len() && pos_key(slots@[at as int]) == pos_key(p),
                decreases slots@.len() - j,
            {
                if !found {
                    let q = slots[j];
                    let qx = q.x / SCALE;
                    let qy = q.y / SCALE;
                    if qx == px && qy == py {
                        found = true;
                        at = j;
                    }
                }
                j = j + 1;
            }
            proof {
                lemma_insert_one_props(slots@, p);
            }
            if found {
                slots.set(at, p);
                proof {
                    let w = choose|w: int|
                        0 <= w < pre_slots.len() && pos_key(#[trigger] pre_slots[w]) == pos_key(p);
                    assert(w == at);
                    assert(slots@ == insert_one(pre_slots, p));
                }
            } else {
                slots.push(p);
                proof {
                    assert(slots@ == insert_one(pre_slots, p));
                }
            }
            proof {
                assert(particles@.skip(i as int).drop_first() =~= particles@.skip(i as int + 1));
                assert(particles@.skip(i as int)[0] == particles@[i as int]);
            }
            i = i + 1;
        }
        proof {
            assert(particles@.skip(particles@.len() as int) =~= Seq::<Particle>::empty());
            lemma_commit_props(Seq::empty(), particles@);
            assert forall|k: int| 0 <= k < slots@.len() implies particles@.contains(
                #[trigger] slots@[k],
            ) by {
                assert(Seq::<Particle>::empty().contains(slots@[k]) || particles@.contains(
                    slots@[k],
                ));
            }
        }
        self.slots = slots;
    }

    /// Partitions the stored particles by group identity, preserving store
    /// order within each group, and reports which groups are populated.
    pub fn regroup(&self, n_groups: usize) -> (r: (Vec<ParticleGroup>, Vec<bool>))
        requires
            forall|i: int| 0 <= i < self.slots@.len() ==> (#[trigger] self.slots@[i]).group < n_groups,
        ensures
            r.0@.len() == n_groups,
            r.1@.len() == n_groups,
            forall|k: int| 0 <= k < n_groups ==> (#[trigger] r.0@[k]).group@ == group_of(self.slots@, k),
            forall|k: int| 0 <= k < n_groups ==> r.1@[k] == (#[trigger] group_of(self.slots@, k).len() > 0),
    {
        let mut groups: Vec<ParticleGroup> = Vec::new();
        let mut present: Vec<bool> = Vec::new();
        let mut k: usize = 0;
        while k < n_groups
            invariant
                0 <= k <= n_groups,
                groups@.len() == k,
                present@.len() == k,
                forall|i: int| 0 <= i < self.slots@.len() ==> (#[trigger] self.slots@[i]).group < n_groups,
                forall|m: int|
                    0 <= m < k ==> (#[trigger] groups@[m]).group@ == group_of(self.slots@, m),
                forall|m: int|
                    0 <= m < k ==> present@[m] == (#[trigger] group_of(self.slots@, m).len() > 0),
            decreases n_groups - k,
        {
            let mut members: Vec<Particle> = Vec::new();
            let mut i: usize = 0;
            proof {
                broadcast use vstd::prelude::Seq::lemma_filter_push;

                reveal(Seq::filter);
                assert(self.slots@.take(0) =~= Seq::<Particle>::empty());
                assert(group_of(self.slots@.take(0), k as int) == self.slots@.take(0));
            }
            while i < self.slots.len()
                invariant
                    0 <= i <= self.slots@.len(),
                    k < n_groups,
                    members@ == group_of(self.slots@.take(i as int), k as int),
                decreases self.slots@.len() - i,
            {
                let p = self.slots[i];
                proof {
                    broadcast use vstd::prelude::Seq::lemma_filter_push;

                    assert(self.slots@.take(i as int + 1) =~= self.slots@.take(i as int).push(
                        self.slots@[i as int],
                    ));
                }
                if p.group == k {
                    members.push(p);
                }
                i = i + 1;
            }
            proof {
                assert(self.slots@.take(self.slots@.len() as int) =~= self.slots@);
            }
            let populated = members.len() > 0;
            groups.push(ParticleGroup::new(members));
            present.push(populated);
            k = k + 1;
        }
        (groups, present)
    }
}

} // verus!
