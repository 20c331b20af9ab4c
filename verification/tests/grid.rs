use sandsim::map2d::Map2d;
use sandsim::cell::{Cell, Species, empty_cell};
use sandsim::api::SandApi;

fn water(heat: i16) -> Cell {
    Cell { species: Species::Water, clock: false, heat, grain: 0 }
}

#[test]
fn filled_with_fills_every_slot() {
    let m: Map2d<u8> = Map2d::filled_with(7, 4, 3);
    for y in 0..3 {
        for x in 0..4 {
            assert_eq!(m.retrieve(x, y).unwrap(), 7);
        }
    }
}

#[test]
fn retrieve_clamps_out_of_range_reads() {
    let mut m: Map2d<Cell> = Map2d::filled_with(empty_cell(), 4, 3);
    m.set_point(0, 0, water(11)).unwrap();
    m.set_point(3, 2, water(22)).unwrap();
    // out-of-range reads equal the read of the nearest in-bounds coordinate
    assert_eq!(m.retrieve(-5, -9).unwrap(), m.retrieve(0, 0).unwrap());
    assert_eq!(m.retrieve(100, 100).unwrap(), m.retrieve(3, 2).unwrap());
    assert_eq!(m.retrieve(-1, 2).unwrap(), m.retrieve(0, 2).unwrap());
    assert_eq!(m.retrieve(2, 77).unwrap(), m.retrieve(2, 2).unwrap());
    assert_eq!(m.retrieve(-5, -9).unwrap().heat, 11);
    assert_eq!(m.retrieve(100, 100).unwrap().heat, 22);
}

#[test]
fn set_point_out_of_range_is_a_silent_success() {
    let mut m: Map2d<Cell> = Map2d::filled_with(empty_cell(), 4, 3);
    assert!(m.set_point(-1, 0, water(5)).is_ok());
    assert!(m.set_point(4, 0, water(5)).is_ok());
    assert!(m.set_point(0, 3, water(5)).is_ok());
    for y in 0..3 {
        for x in 0..4 {
            assert_eq!(m.retrieve(x, y).unwrap(), empty_cell());
        }
    }
}

#[test]
fn reset_restores_the_default() {
    let mut m: Map2d<Cell> = Map2d::filled_with(empty_cell(), 4, 3);
    m.set_point(1, 1, water(9)).unwrap();
    m.reset_point(1, 1).unwrap();
    assert_eq!(m.retrieve(1, 1).unwrap(), empty_cell());
    m.set_point(2, 2, water(9)).unwrap();
    m.set_point(0, 1, water(9)).unwrap();
    m.reset_map().unwrap();
    for y in 0..3 {
        for x in 0..4 {
            assert_eq!(m.retrieve(x, y).unwrap(), empty_cell());
        }
    }
}

#[test]
fn index_mapping_round_trips() {
    let m: Map2d<u8> = Map2d::filled_with(0, 5, 4);
    for y in 0..4 {
        for x in 0..5 {
            let idx = m.xy_idx(x, y);
            assert_eq!(m.idx_xy(idx), (x, y));
        }
    }
    assert_eq!(m.xy_idx(0, 0), 0);
    assert_eq!(m.xy_idx(4, 3), 19);
}

#[test]
fn new_stamps_a_border_ring() {
    let api = SandApi::new(5, 4, true);
    for y in 0..4 {
        for x in 0..5 {
            let c = api.get_absolute(x, y).unwrap();
            if x == 0 || x == 4 || y == 0 || y == 3 {
                assert_eq!(c.species, Species::Border);
                assert!(!c.clock);
                assert_eq!(c.heat, 20);
            } else {
                assert_eq!(c, empty_cell());
            }
        }
    }
}

#[test]
fn new_without_borders_is_all_empty() {
    let api = SandApi::new(5, 4, false);
    for y in 0..4 {
        for x in 0..5 {
            assert_eq!(api.get_absolute(x, y).unwrap(), empty_cell());
        }
    }
}

#[test]
fn neighbors_inherit_clamped_edges() {
    let mut api = SandApi::new(4, 4, false);
    api.set_absolute(0, 0, water(33)).unwrap();
    api.set_cursor(0, 0);
    let ns = api.neighbors().unwrap();
    assert_eq!(ns.len(), 8);
    // the up-left neighbor of the corner clamps to the corner itself
    assert_eq!(ns[0].dx, -1);
    assert_eq!(ns[0].dy, -1);
    assert_eq!(ns[0].cell, water(33));
    // the offsets cover the full Moore neighborhood, in the fixed order
    let offsets: Vec<(i32, i32)> = ns.iter().map(|n| (n.dx, n.dy)).collect();
    assert_eq!(
        offsets,
        vec![(-1, -1), (0, -1), (-1, 0), (-1, 1), (1, -1), (1, 1), (0, 1), (1, 0)]
    );
}

#[test]
fn brush_paints_only_empty_cells() {
    let mut api = SandApi::new(9, 9, false);
    api.set_absolute(4, 4, water(50)).unwrap();
    let sand = Cell { species: Species::Sand, clock: false, heat: 20, grain: 0 };
    api.brush(4, 4, 2, sand).unwrap();
    // the occupied center is untouched; empty cells in the disc get sand
    assert_eq!(api.get_absolute(4, 4).unwrap(), water(50));
    assert_eq!(api.get_absolute(4, 3).unwrap().species, Species::Sand);
    assert_eq!(api.get_absolute(6, 4).unwrap().species, Species::Sand);
    // outside the disc nothing changes
    assert_eq!(api.get_absolute(7, 4).unwrap().species, Species::Empty);
    assert_eq!(api.get_absolute(6, 6).unwrap().species, Species::Empty);
}

#[test]
fn brush_radius_one_writes_the_single_cell_unregrained() {
    let mut api = SandApi::new(5, 5, false);
    let sand = Cell { species: Species::Sand, clock: false, heat: 20, grain: 77 };
    api.brush(2, 2, 1, sand).unwrap();
    assert_eq!(api.get_absolute(2, 2).unwrap(), sand);
    // painting over a non-empty cell is a no-op
    let salt = Cell { species: Species::Salt, clock: false, heat: 20, grain: 3 };
    api.brush(2, 2, 1, salt).unwrap();
    assert_eq!(api.get_absolute(2, 2).unwrap(), sand);
}

#[test]
fn erase_clears_a_disc_but_spares_borders() {
    let mut api = SandApi::new(7, 7, true);
    let sand = Cell { species: Species::Sand, clock: false, heat: 20, grain: 0 };
    for x in 1..6 {
        api.set_absolute(x, 1, sand).unwrap();
    }
    api.erase(1, 1, 2).unwrap();
    assert_eq!(api.get_absolute(1, 1).unwrap(), empty_cell());
    assert_eq!(api.get_absolute(2, 1).unwrap(), empty_cell());
    assert_eq!(api.get_absolute(3, 1).unwrap(), empty_cell());
    assert_eq!(api.get_absolute(4, 1).unwrap().species, Species::Sand);
    // the border ring inside the disc keeps its species
    assert_eq!(api.get_absolute(0, 0).unwrap().species, Species::Border);
    assert_eq!(api.get_absolute(0, 1).unwrap().species, Species::Border);
}

#[test]
fn erase_radius_one_clears_the_single_cell() {
    let mut api = SandApi::new(5, 5, false);
    let sand = Cell { species: Species::Sand, clock: false, heat: 20, grain: 0 };
    api.set_absolute(2, 2, sand).unwrap();
    api.set_absolute(2, 3, sand).unwrap();
    api.erase(2, 2, 1).unwrap();
    assert_eq!(api.get_absolute(2, 2).unwrap(), empty_cell());
    assert_eq!(api.get_absolute(2, 3).unwrap().species, Species::Sand);
}
