//! The tile-world prototype: a grid of terrain tiles rendered as 32 by 32
//! pixel blocks into an RGBA frame. It sits beside the particle simulator
//! and shares nothing with its tick loop.

use vstd::prelude::*;

use crate::organism::Organism;
use crate::particle::Particle;
use crate::rng::draw_below;
use crate::tile::TILE_PIXELS;
use crate::tile::Tile;

verus! {

/// Edge of a tile, in pixels.
pub const TILE_EDGE: usize = 32;

/// The frame cell a tile's pixel lands on: tiles are laid out row-major,
/// `width / 32` of them to a row, and each tile is itself a row-major
/// 32 by 32 block.
pub open spec fn tile_cell(width: int, tile_i: int, p_i: int) -> int {
    let fit = width / 32;
    let sx = (tile_i % fit) * 32 + p_i % 32;
    let sy = (tile_i / fit) * 32 + p_i / 32;
    sy * width + sx
}

pub struct SimGrid {
    pub width: usize,
    pub height: usize,
    pub pixel_size: usize,
    pub x: u8,
    pub y: u8,
    pub pixels: Vec<Particle>,
    pub timespace: Vec<(usize, usize)>,
    pub organisms: Vec<Organism>,
    pub tiles: Vec<Tile>,
    pub needs_re_render: bool,
}

impl SimGrid {
    /// The grid's tiles fit the frame and each carries a full pixel
    /// block.
    pub open spec fn wf(self) -> bool {
        &&& 32 <= self.width <= 100_000
        &&& 32 <= self.height <= 100_000
        &&& self.tiles@.len() <= (self.width as int / 32) * (self.height as int / 32)
        &&& forall|t: int|
            0 <= t < self.tiles@.len() ==> (#[trigger] self.tiles@[t]).pixels@.len() == TILE_PIXELS
    }

    /// An empty grid: no tiles laid yet, a frame owed.
    pub fn new(width: usize, height: usize, pixel_size: usize) -> (g: SimGrid)
        requires
            32 <= width <= 100_000,
            32 <= height <= 100_000,
        ensures
            g.wf(),
            g.width == width && g.height == height && g.pixel_size == pixel_size,
            g.tiles@.len() == 0,
            g.organisms@.len() == 0,
            g.needs_re_render,
    {
        SimGrid {
            x: 0,
            y: 0,
            width,
            height,
            pixel_size,
            pixels: Vec::new(),
            timespace: Vec::new(),
            organisms: Vec::new(),
            tiles: Vec::new(),
            needs_re_render: true,
        }
    }

    /// Renders every tile's pixel block into the frame, row-major, and
    /// marks the frame up to date. Pixels of distinct tiles land on
    /// distinct frame cells, so the frame is exact wherever a tile is.
    pub fn generate_timespace(&mut self, screen: &mut Vec<u8>)
        requires
            old(self).wf(),
            old(screen)@.len() == old(self).width as int * old(self).height as int * 4,
            old(self).width as int * old(self).height as int * 4 <= usize::MAX,
        ensures
            *final(self) == (SimGrid { needs_re_render: false, ..*old(self) }),
            final(screen)@.len() == old(screen)@.len(),
            forall|t: int, p_i: int|
                0 <= t < old(self).tiles@.len() && 0 <= p_i < TILE_PIXELS ==> {
                    let cell = tile_cell(old(self).width as int, t, p_i);
                    &&& final(screen)@[4 * cell] == (#[trigger] old(self).tiles@[t].pixels@[p_i]).colour_rgba[0]
                    &&& final(screen)@[4 * cell + 1] == old(self).tiles@[t].pixels@[p_i].colour_rgba[1]
                    &&& final(screen)@[4 * cell + 2] == old(self).tiles@[t].pixels@[p_i].colour_rgba[2]
                    &&& final(screen)@[4 * cell + 3] == old(self).tiles@[t].pixels@[p_i].colour_rgba[3]
                },
    {
        let w = self.width;
        let h = self.height;
        let fit = w / TILE_EDGE;
        let n_tiles = self.tiles.len();
        let ghost w_int = w as int;
        proof {
            vstd::arithmetic::div_mod::lemma_div_non_zero(w_int, 32);
        }
        let mut t: usize = 0;
        while t < n_tiles
            invariant
                0 <= t <= n_tiles,
                *self == *old(self),
                n_tiles == self.tiles@.len(),
                w == self.width,
                h == self.height,
                fit == w_int / 32,
                fit >= 1,
                w_int == w as int,
                self.wf(),
                screen@.len() == old(screen)@.len(),
                old(screen)@.len() == w_int * h as int * 4,
                w_int * h as int * 4 <= usize::MAX,
                forall|tt: int, pp: int|
                    0 <= tt < t && 0 <= pp < TILE_PIXELS ==> painted(
                        screen@,
                        w_int,
                        tt,
                        pp,
                        (#[trigger] self.tiles@[tt].pixels@[pp]).colour_rgba,
                    ),
            decreases n_tiles - t,
        {
            let tx = t % fit;
            let ty = t / fit;
            let mut p_i: usize = 0;
            while p_i < TILE_PIXELS
                invariant
                    0 <= p_i <= TILE_PIXELS,
                    0 <= t < n_tiles,
                    *self == *old(self),
                    n_tiles == self.tiles@.len(),
                    w == self.width,
                    h == self.height,
                    fit == w_int / 32,
                    fit >= 1,
                    w_int == w as int,
                    self.wf(),
                    tx == t as int % (w_int / 32),
                    ty == t as int / (w_int / 32),
                    screen@.len() == old(screen)@.len(),
                    old(screen)@.len() == w_int * h as int * 4,
                    w_int * h as int * 4 <= usize::MAX,
                    forall|tt: int, pp: int|
                        ((0 <= tt < t && 0 <= pp < TILE_PIXELS) || (tt == t && 0 <= pp < p_i))
                            ==> painted(
                            screen@,
                            w_int,
                            tt,
                            pp,
                            (#[trigger] self.tiles@[tt].pixels@[pp]).colour_rgba,
                        ),
                decreases TILE_PIXELS - p_i,
            {
                proof {
                    lemma_tile_cell_bounds(
                        w_int,
                        h as int,
                        self.tiles@.len() as int,
                        t as int,
                        p_i as int,
                    );
                }
                let px = p_i % TILE_EDGE;
                let py = p_i / TILE_EDGE;
                let sx = tx * TILE_EDGE + px;
                let sy = ty * TILE_EDGE + py;
                proof {
                    assert(sy * w_int + sx == tile_cell(w_int, t as int, p_i as int));
                    assert(sy as int * w_int + sx <= 100_000 * 100_000) by (nonlinear_arith)
                        requires
                            0 <= sy < h as int <= 100_000,
                            0 <= sx < w_int <= 100_000,
                            32 <= w_int,
                    ;
                }
                let cell = sy * w + sx;
                let colour = self.tiles[t].pixels[p_i].colour_rgba;
                let ghost pre_screen = screen@;
                screen.set(4 * cell, colour[0]);
                screen.set(4 * cell + 1, colour[1]);
                screen.set(4 * cell + 2, colour[2]);
                screen.set(4 * cell + 3, colour[3]);
                proof {
                    let nt = self.tiles@.len() as int;
                    assert forall|tt: int, pp: int|
                        ((0 <= tt < t && 0 <= pp < TILE_PIXELS) || (tt == t && 0 <= pp < p_i
                            + 1)) implies painted(
                        screen@,
                        w_int,
                        tt,
                        pp,
                        (#[trigger] self.tiles@[tt].pixels@[pp]).colour_rgba,
                    ) by {
                        if tt == t && pp == p_i {
                            assert(painted(screen@, w_int, tt, pp, colour));
                        } else {
                            lemma_distinct_tile_cells(
                                w_int,
                                h as int,
                                nt,
                                tt,
                                pp,
                                t as int,
                                p_i as int,
                            );
                            assert(painted(pre_screen, w_int, tt, pp, self.tiles@[tt].pixels@[pp].colour_rgba));
                            lemma_tile_cell_bounds(w_int, h as int, nt, tt, pp);
                        }
                    }
                }
                p_i = p_i + 1;
            }
            t = t + 1;
        }
        self.needs_re_render = false;
    }

    /// Draws the frame if one is owed; the tiles are rendered lazily the
    /// first time.
    pub fn draw(&mut self, screen: &mut Vec<u8>)
        requires
            old(self).wf(),
            old(screen)@.len() == old(self).width as int * old(self).height as int * 4,
            old(self).width as int * old(self).height as int * 4 <= usize::MAX,
        ensures
            final(self).wf(),
            final(screen)@.len() == old(screen)@.len(),
            !old(self).needs_re_render ==> *final(self) == *old(self),
            old(self).needs_re_render && old(self).timespace@.len() == 0 ==> !final(self).needs_re_render,
    {
        if !self.needs_re_render {
            return ;
        }
        if self.timespace.len() == 0 {
            self.generate_timespace(screen);
        }
    }

    pub fn update(&mut self)
        ensures
            *final(self) == *old(self),
    {
    }

    /// Clears the tiles and lays a fresh full grid of them, each with a
    /// uniformly drawn terrain kind and its resource roll.
    pub fn randomise(&mut self, rng: &mut randomize::PCG32)
        requires
            old(self).wf(),
        ensures
            final(self).wf(),
            final(self).width == old(self).width,
            final(self).height == old(self).height,
            final(self).tiles@.len() == (old(self).width as int / 32) * (old(self).height as int
                / 32),
            forall|t: int|
                0 <= t < final(self).tiles@.len() ==> (#[trigger] final(self).tiles@[
                t]).resources@.len() == 0,
    {
        self.tiles.clear();
        let width_res_fit = self.width / TILE_EDGE;
        let height_res_fit = self.height / TILE_EDGE;
        proof {
            vstd::arithmetic::div_mod::lemma_div_is_ordered(self.width as int, 100_000, 32);
            vstd::arithmetic::div_mod::lemma_div_is_ordered(self.height as int, 100_000, 32);
            assert(width_res_fit as int * (height_res_fit as int) <= 3125 * 3125)
                by (nonlinear_arith)
                requires
                    0 <= width_res_fit <= 3125,
                    0 <= height_res_fit <= 3125,
            ;
        }
        let res_fit = width_res_fit * height_res_fit;
        let mut i: usize = 0;
        while i < res_fit
            invariant
                0 <= i <= res_fit,
                self.width == old(self).width,
                self.height == old(self).height,
                32 <= self.width <= 100_000,
                32 <= self.height <= 100_000,
                res_fit == (self.width as int / 32) * (self.height as int / 32),
                self.tiles@.len() == i,
                forall|t: int|
                    0 <= t < self.tiles@.len() ==> (#[trigger] self.tiles@[t]).pixels@.len()
                        == TILE_PIXELS,
                forall|t: int|
                    0 <= t < self.tiles@.len() ==> (#[trigger] self.tiles@[t]).resources@.len()
                        == 0,
            decreases res_fit - i,
        {
            let terrain = match draw_below(rng, 6) {
                0 => 'f',
                1 => 'w',
                2 => 'm',
                3 => 'h',
                4 => 'p',
                5 => 'w',
                _ => '.',
            };
            let roll = draw_below(rng, 100) as u8;
            #[verifier::truncate]
            let coord = (i as u8);
            self.tiles.push(Tile::new(coord, coord, terrain, roll));
            i = i + 1;
        }
    }
}

/// The four frame bytes of the cell a tile pixel covers hold the given
/// colour.
pub open spec fn painted(screen: Seq<u8>, width: int, t: int, p_i: int, colour: [u8; 4]) -> bool {
    let cell = tile_cell(width, t, p_i);
    &&& screen[4 * cell] == colour[0]
    &&& screen[4 * cell + 1] == colour[1]
    &&& screen[4 * cell + 2] == colour[2]
    &&& screen[4 * cell + 3] == colour[3]
}

/// Every tile pixel of a well-formed grid lands inside the frame.
proof fn lemma_tile_cell_bounds(width: int, height: int, n_tiles: int, t: int, p_i: int)
    requires
        32 <= width <= 100_000,
        32 <= height <= 100_000,
        n_tiles <= (width / 32) * (height / 32),
        0 <= t < n_tiles,
        0 <= p_i < TILE_PIXELS,
    ensures
        0 <= tile_cell(width, t, p_i) < width * height,
        (t % (width / 32)) * 32 + p_i % 32 < width,
        (t / (width / 32)) * 32 + p_i / 32 < height,
        0 <= (t % (width / 32)) * 32 + p_i % 32,
        0 <= (t / (width / 32)) * 32 + p_i / 32,
{
    let fit = width / 32;
    let hfit = height / 32;
    assert(fit * hfit == hfit * fit) by (nonlinear_arith);
    vstd::arithmetic::div_mod::lemma_mod_division_less_than_divisor(t, fit);
    vstd::arithmetic::div_mod::lemma_mod_division_less_than_divisor(p_i, 32);
    vstd::arithmetic::div_mod::lemma_div_pos_is_pos(t, fit);
    vstd::arithmetic::div_mod::lemma_div_pos_is_pos(p_i, 32);
    vstd::arithmetic::div_mod::lemma_multiply_divide_lt(t, fit, hfit);
    vstd::arithmetic::div_mod::lemma_multiply_divide_lt(p_i, 32, 32);
    vstd::arithmetic::div_mod::lemma_fundamental_div_mod(width, 32);
    vstd::arithmetic::div_mod::lemma_mod_division_less_than_divisor(width, 32);
    vstd::arithmetic::div_mod::lemma_fundamental_div_mod(height, 32);
    vstd::arithmetic::div_mod::lemma_mod_division_less_than_divisor(height, 32);
    let tx = t % fit;
    let ty = t / fit;
    let px = p_i % 32;
    let py = p_i / 32;
    assert(tx * 32 + px < width) by (nonlinear_arith)
        requires
            0 <= tx < fit,
            0 <= px < 32,
            32 * fit <= width,
    ;
    assert(ty * 32 + py < height) by (nonlinear_arith)
        requires
            0 <= ty < hfit,
            0 <= py < 32,
            32 * hfit <= height,
    ;
    assert(0 <= tx * 32 + px) by (nonlinear_arith)
        requires
            tx >= 0 && px >= 0,
    ;
    assert(0 <= ty * 32 + py) by (nonlinear_arith)
        requires
            ty >= 0 && py >= 0,
    ;
    let sx = tx * 32 + px;
    let sy = ty * 32 + py;
    assert(0 <= sy * width + sx < width * height) by (nonlinear_arith)
        requires
            0 <= sx < width,
            0 <= sy < height,
    ;
}

/// Distinct tile pixels land on distinct frame cells.
proof fn lemma_distinct_tile_cells(
    width: int,
    height: int,
    n_tiles: int,
    ta: int,
    pa: int,
    tb: int,
    pb: int,
)
    requires
        32 <= width <= 100_000,
        32 <= height <= 100_000,
        n_tiles <= (width / 32) * (height / 32),
        0 <= ta < n_tiles,
        0 <= pa < TILE_PIXELS,
        0 <= tb < n_tiles,
        0 <= pb < TILE_PIXELS,
        ta != tb || pa != pb,
    ensures
        tile_cell(width, ta, pa) != tile_cell(width, tb, pb),
{
    lemma_tile_cell_bounds(width, height, n_tiles, ta, pa);
    lemma_tile_cell_bounds(width, height, n_tiles, tb, pb);
    let fit = width / 32;
    let ax = (ta % fit) * 32 + pa % 32;
    let ay = (ta / fit) * 32 + pa / 32;
    let bx = (tb % fit) * 32 + pb % 32;
    let by = (tb / fit) * 32 + pb / 32;
    if ay * width + ax == by * width + bx {
        assert(ax == bx && ay == by) by (nonlinear_arith)
            requires
                ay * width + ax == by * width + bx,
                0 <= ax < width,
                0 <= bx < width,
        ;
        assert(ta % fit == tb % fit && pa % 32 == pb % 32 && ta / fit == tb / fit && pa / 32 == pb
            / 32) by (nonlinear_arith)
            requires
                (ta % fit) * 32 + pa % 32 == (tb % fit) * 32 + pb % 32,
                (ta / fit) * 32 + pa / 32 == (tb / fit) * 32 + pb / 32,
                0 <= pa % 32 < 32,
                0 <= pb % 32 < 32,
                0 <= pa / 32 < 32,
                0 <= pb / 32 < 32,
        ;
        vstd::arithmetic::div_mod::lemma_fundamental_div_mod(ta, fit);
        vstd::arithmetic::div_mod::lemma_fundamental_div_mod(tb, fit);
        vstd::arithmetic::div_mod::lemma_fundamental_div_mod(pa, 32);
        vstd::arithmetic::div_mod::lemma_fundamental_div_mod(pb, 32);
        assert(ta == tb && pa == pb) by (nonlinear_arith)
            requires
                ta == fit * (ta / fit) + ta % fit,
                tb == fit * (tb / fit) + tb % fit,
                pa == 32 * (pa / 32) + pa % 32,
                pb == 32 * (pb / 32) + pb % 32,
                ta % fit == tb % fit,
                ta / fit == tb / fit,
                pa % 32 == pb % 32,
                pa / 32 == pb / 32,
        ;
        assert(false);
    }
}

} // verus!
