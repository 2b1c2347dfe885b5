//! An organism prototype: a small block of particles sharing an origin,
//! whose display colours can be redrawn together.

use vstd::prelude::*;

use crate::particle::Particle;

verus! {

#[derive(Clone, Debug)]
pub struct Organism {
    pub x: u8,
    pub y: u8,
    pub pixels: Vec<Particle>,
}

impl Organism {
    pub fn new(x: u8, y: u8, pixels: Vec<Particle>) -> (o: Organism)
        ensures
            o.x == x && o.y == y,
            o.pixels == pixels,
    {
        Organism { x, y, pixels }
    }

    /// Redraws the display colour of every particle of the organism; the
    /// particles themselves (position, velocity, group, life force) are
    /// untouched and every new colour is fully opaque.
    pub fn randomise_pixel_colours(&mut self, rng: &mut randomize::PCG32)
        ensures
            final(self).x == old(self).x && final(self).y == old(self).y,
            final(self).pixels@.len() == old(self).pixels@.len(),
            forall|i: int|
                0 <= i < final(self).pixels@.len() ==> {
                    let p = #[trigger] final(self).pixels@[i];
                    let q = old(self).pixels@[i];
                    &&& p.colour_rgba[3] == 255
                    &&& p.group == q.group
                    &&& p.x == q.x && p.y == q.y
                    &&& p.vx == q.vx && p.vy == q.vy
                    &&& p.birth_rate == q.birth_rate
                    &&& p.life_force == q.life_force
                },
    {
        let n = self.pixels.len();
        let mut i: usize = 0;
        while i < n
            invariant
                0 <= i <= n,
                n == self.pixels@.len(),
                self.x == old(self).x && self.y == old(self).y,
                self.pixels@.len() == old(self).pixels@.len(),
                forall|j: int|
                    i <= j < self.pixels@.len() ==> #[trigger] self.pixels@[j] == old(
                        self,
                    ).pixels@[j],
                forall|j: int|
                    0 <= j < i ==> {
                        let p = #[trigger] self.pixels@[j];
                        let q = old(self).pixels@[j];
                        &&& p.colour_rgba[3] == 255
                        &&& p.group == q.group
                        &&& p.x == q.x && p.y == q.y
                        &&& p.vx == q.vx && p.vy == q.vy
                        &&& p.birth_rate == q.birth_rate
                        &&& p.life_force == q.life_force
                    },
            decreases n - i,
        {
            let mut p = self.pixels[i];
            p.randomise_pixel_colour(rng);
            self.pixels.set(i, p);
            i = i + 1;
        }
    }
}

} // verus!
