//! A terrain tile of the world's resource economy: a block of pixels
//! coloured by terrain kind, and the stock of the one resource kind the
//! tile generates.

use vstd::prelude::*;

use crate::pixel::Pixel;
use crate::resource::Resource;

verus! {

/// Pixels in a tile: a 32 by 32 block.
pub const TILE_PIXELS: usize = 1024;

/// The display colour of a terrain kind.
pub open spec fn terrain_colour(terrain_type: char) -> [u8; 4] {
    if terrain_type == 'f' {
        [255u8, 0u8, 0u8, 255u8]
    } else if terrain_type == 'w' {
        [255u8, 125u8, 0u8, 255u8]
    } else if terrain_type == 'm' {
        [100u8, 100u8, 100u8, 255u8]
    } else if terrain_type == 'h' {
        [0u8, 255u8, 125u8, 255u8]
    } else if terrain_type == 'p' {
        [0u8, 255u8, 0u8, 255u8]
    } else {
        [0u8, 0u8, 0u8, 255u8]
    }
}

/// The resource kind a terrain generates, given the percentile rolled
/// when the tile was laid: forests always feed, woods always give wood,
/// mountains give iron or stone or nothing, hills stone or nothing,
/// plains horses or nothing ('n' marks none).
pub open spec fn resource_for(terrain_type: char, roll: int) -> char {
    if terrain_type == 'f' {
        'f'
    } else if terrain_type == 'w' {
        'w'
    } else if terrain_type == 'm' {
        if roll < 50 {
            'i'
        } else if roll < 75 {
            's'
        } else {
            'n'
        }
    } else if terrain_type == 'h' {
        if roll < 50 {
            's'
        } else {
            'n'
        }
    } else if terrain_type == 'p' {
        if roll < 33 {
            'h'
        } else {
            'n'
        }
    } else {
        'n'
    }
}

/// The resource kinds a tile can generate.
pub open spec fn generable(kind: char) -> bool {
    kind == 'f' || kind == 'w' || kind == 'i' || kind == 's' || kind == 'h' || kind == 'p'
}

#[derive(Clone, Debug)]
pub struct Tile {
    pub x: u8,
    pub y: u8,
    pub terrain_type: char,
    pub pixels: Vec<Pixel>,
    pub resources: Vec<Resource>,
    pub generates_resource: char,
}

impl Tile {
    /// A fresh tile of the given terrain: a full block of pixels in the
    /// terrain's colour, no stock yet, and the generated resource kind
    /// decided once by the given percentile roll.
    pub fn new(x: u8, y: u8, terrain_type: char, roll: u8) -> (t: Tile)
        requires
            roll < 100,
        ensures
            t.x == x && t.y == y && t.terrain_type == terrain_type,
            t.pixels@.len() == TILE_PIXELS,
            forall|i: int|
                0 <= i < t.pixels@.len() ==> (#[trigger] t.pixels@[i]).colour_rgba
                    == terrain_colour(terrain_type),
            t.resources@.len() == 0,
            t.generates_resource == resource_for(terrain_type, roll as int),
    {
        let colour = match terrain_type {
            'f' => [255u8, 0u8, 0u8, 255u8],
            'w' => [255u8, 125u8, 0u8, 255u8],
            'm' => [100u8, 100u8, 100u8, 255u8],
            'h' => [0u8, 255u8, 125u8, 255u8],
            'p' => [0u8, 255u8, 0u8, 255u8],
            _ => [0u8, 0u8, 0u8, 255u8],
        };
        let mut temp_pixels: Vec<Pixel> = Vec::new();
        let mut i: usize = 0;
        while i < TILE_PIXELS
            invariant
                0 <= i <= TILE_PIXELS,
                temp_pixels@.len() == i,
                colour == terrain_colour(terrain_type),
                forall|j: int|
                    0 <= j < temp_pixels@.len() ==> (#[trigger] temp_pixels@[j]).colour_rgba
                        == terrain_colour(terrain_type),
            decreases TILE_PIXELS - i,
        {
            temp_pixels.push(Pixel::new(colour));
            i = i + 1;
        }
        let generates_resource = match terrain_type {
            'f' => 'f',
            'w' => 'w',
            'm' => {
                if roll < 50 {
                    'i'
                } else if roll < 75 {
                    's'
                } else {
                    'n'
                }
            },
            'h' => {
                if roll < 50 {
                    's'
                } else {
                    'n'
                }
            },
            'p' => {
                if roll < 33 {
                    'h'
                } else {
                    'n'
                }
            },
            _ => 'n',
        };
        Tile { x, y, terrain_type, pixels: temp_pixels, resources: Vec::new(), generates_resource }
    }

    /// One economy step: the tile adds one unit of the resource kind it
    /// generates to its stock, opening a fresh stock when it holds none of
    /// that kind yet; a tile that generates nothing stays unchanged.
    pub fn update_tile(&mut self)
        requires
            forall|i: int|
                0 <= i < old(self).resources@.len() ==> (#[trigger] old(self).resources@[
                i]).quantity < i16::MAX,
        ensures
            final(self).x == old(self).x && final(self).y == old(self).y,
            final(self).terrain_type == old(self).terrain_type,
            final(self).pixels == old(self).pixels,
            final(self).generates_resource == old(self).generates_resource,
            generate_resource_spec(old(self).resources@, old(self).generates_resource, final(self).resources@),
    {
        self.generate_resource();
    }

    /// The stock-keeping step behind `update_tile`.
    pub fn generate_resource(&mut self)
        requires
            forall|i: int|
                0 <= i < old(self).resources@.len() ==> (#[trigger] old(self).resources@[
                i]).quantity < i16::MAX,
        ensures
            final(self).x == old(self).x && final(self).y == old(self).y,
            final(self).terrain_type == old(self).terrain_type,
            final(self).pixels == old(self).pixels,
            final(self).generates_resource == old(self).generates_resource,
            generate_resource_spec(old(self).resources@, old(self).generates_resource, final(self).resources@),
    {
        let kind = self.generates_resource;
        let mut j: usize = 0;
        let n = self.resources.len();
        while j < n
            invariant
                0 <= j <= n,
                n == self.resources@.len(),
                *self == *old(self),
                kind == old(self).generates_resource,
                forall|i: int|
                    0 <= i < old(self).resources@.len() ==> (#[trigger] old(self).resources@[
                    i]).quantity < i16::MAX,
                forall|k: int|
                    0 <= k < j ==> (#[trigger] self.resources@[k]).resource_type != kind,
            decreases n - j,
        {
            if self.resources[j].resource_type == kind {
                let ghost pre = self.resources@;
                let mut r = self.resources[j];
                proof {
                    assert((old(self).resources@[j as int]).quantity < i16::MAX);
                }
                r.add_resource(1);
                self.resources.set(j, r);
                proof {
                    assert(self.resources@ =~= pre.update(
                        j as int,
                        (Resource { quantity: (pre[j as int].quantity + 1) as i16, ..pre[j as int] }),
                    ));
                    assert(generate_resource_spec(pre, kind, self.resources@));
                }
                return ;
            }
            j = j + 1;
        }
        let is_generable = kind == 'f' || kind == 'w' || kind == 'i' || kind == 's' || kind == 'h'
            || kind == 'p';
        if is_generable {
            self.resources.push(Resource::new(kind, [0, 0, 0, 255]));
        }
    }
}

/// How one stock-keeping step relates the stocks before and after it: the
/// first stock of the generated kind grows by one; absent one, a fresh
/// stock is opened for a generable kind; otherwise nothing changes.
pub open spec fn generate_resource_spec(
    before: Seq<Resource>,
    kind: char,
    after: Seq<Resource>,
) -> bool {
    if exists|i: int| 0 <= i < before.len() && (#[trigger] before[i]).resource_type == kind {
        exists|i: int|
            {
                &&& 0 <= i < before.len()
                &&& (#[trigger] before[i]).resource_type == kind
                &&& forall|k: int| 0 <= k < i ==> (#[trigger] before[k]).resource_type != kind
                &&& after == before.update(
                    i,
                    Resource { quantity: (before[i].quantity + 1) as i16, ..before[i] },
                )
            }
    } else if generable(kind) {
        after == before.push(
            Resource { resource_type: kind, quantity: 1 as i16, colour_rgba: [0u8, 0u8, 0u8, 255u8] },
        )
    } else {
        after == before
    }
}

} // verus!
