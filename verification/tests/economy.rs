use particle_life::organism::Organism;
use particle_life::particle::Particle;
use particle_life::pixel::Pixel;
use particle_life::resource::Resource;
use particle_life::tile::Tile;

#[test]
fn pixel_keeps_its_colour() {
    let p = Pixel::new([1, 2, 3, 4]);
    assert_eq!(p.colour_rgba, [1, 2, 3, 4]);
}

#[test]
fn resource_stock_arithmetic() {
    let mut r = Resource::new('f', [0, 0, 0, 255]);
    assert_eq!(r.resource_type, 'f');
    assert_eq!(r.quantity, 1);
    r.add_resource(4);
    assert_eq!(r.quantity, 5);
    r.remove_resource(2);
    assert_eq!(r.quantity, 3);
}

#[test]
fn forest_tile_is_red_and_feeds() {
    let t = Tile::new(0, 0, 'f', 10);
    assert_eq!(t.pixels.len(), 1024);
    for p in &t.pixels {
        assert_eq!(p.colour_rgba, [255, 0, 0, 255]);
    }
    assert_eq!(t.generates_resource, 'f');
    assert_eq!(t.resources.len(), 0);
}

#[test]
fn mountain_tile_rolls_for_its_resource() {
    assert_eq!(Tile::new(0, 0, 'm', 10).generates_resource, 'i');
    assert_eq!(Tile::new(0, 0, 'm', 60).generates_resource, 's');
    assert_eq!(Tile::new(0, 0, 'm', 90).generates_resource, 'n');
    assert_eq!(Tile::new(0, 0, 'h', 49).generates_resource, 's');
    assert_eq!(Tile::new(0, 0, 'h', 50).generates_resource, 'n');
    assert_eq!(Tile::new(0, 0, 'p', 32).generates_resource, 'h');
    assert_eq!(Tile::new(0, 0, 'p', 33).generates_resource, 'n');
}

#[test]
fn tile_accumulates_its_resource() {
    let mut t = Tile::new(1, 1, 'w', 0);
    t.update_tile();
    assert_eq!(t.resources.len(), 1);
    assert_eq!(t.resources[0].resource_type, 'w');
    assert_eq!(t.resources[0].quantity, 1);
    t.update_tile();
    assert_eq!(t.resources.len(), 1);
    assert_eq!(t.resources[0].quantity, 2);
}

#[test]
fn barren_tile_generates_nothing() {
    let mut t = Tile::new(2, 2, '.', 0);
    for p in &t.pixels {
        assert_eq!(p.colour_rgba, [0, 0, 0, 255]);
    }
    t.update_tile();
    assert_eq!(t.resources.len(), 0);
}

#[test]
fn organism_recolours_without_moving() {
    let mut rng = randomize::PCG32::seed(8, 9);
    let p = Particle {
        group: 3,
        x: 1_000,
        y: 2_000,
        vx: 5,
        vy: -5,
        colour_rgba: [0, 0, 0, 0],
        birth_rate: 2,
        life_force: 77,
    };
    let mut o = Organism::new(4, 5, vec![p, p]);
    o.randomise_pixel_colours(&mut rng);
    assert_eq!(o.x, 4);
    assert_eq!(o.y, 5);
    assert_eq!(o.pixels.len(), 2);
    for q in &o.pixels {
        assert_eq!(q.colour_rgba[3], 255);
        assert_eq!(q.group, 3);
        assert_eq!(q.x, 1_000);
        assert_eq!(q.y, 2_000);
        assert_eq!(q.vx, 5);
        assert_eq!(q.vy, -5);
        assert_eq!(q.birth_rate, 2);
        assert_eq!(q.life_force, 77);
    }
}

use particle_life::sim_grid::SimGrid;

#[test]
fn sim_grid_lays_a_full_tile_grid() {
    let mut rng = randomize::PCG32::seed(14, 15);
    let mut g = SimGrid::new(64, 96, 1);
    assert!(g.needs_re_render);
    g.randomise(&mut rng);
    assert_eq!(g.tiles.len(), 2 * 3);
    for t in &g.tiles {
        assert_eq!(t.pixels.len(), 1024);
        assert!(t.resources.is_empty());
    }
}

#[test]
fn sim_grid_renders_tiles_into_frame() {
    let mut rng = randomize::PCG32::seed(16, 17);
    let mut g = SimGrid::new(64, 64, 1);
    g.randomise(&mut rng);
    let mut frame = vec![7u8; 64 * 64 * 4];
    g.draw(&mut frame);
    assert!(!g.needs_re_render);
    for (t_i, t) in g.tiles.iter().enumerate() {
        let tx = t_i % 2;
        let ty = t_i / 2;
        for p_i in 0..1024 {
            let px = p_i % 32;
            let py = p_i / 32;
            let cell = (ty * 32 + py) * 64 + tx * 32 + px;
            let want = t.pixels[p_i].colour_rgba;
            assert_eq!(frame[4 * cell], want[0]);
            assert_eq!(frame[4 * cell + 1], want[1]);
            assert_eq!(frame[4 * cell + 2], want[2]);
            assert_eq!(frame[4 * cell + 3], want[3]);
        }
    }
    let before = frame.clone();
    g.draw(&mut frame);
    assert_eq!(frame, before);
}
