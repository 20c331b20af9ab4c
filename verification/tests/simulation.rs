use sandsim::api::SandApi;
use sandsim::cell::{Cell, Species, empty_cell};
use sandsim::rng::RandomSource;

fn cell(species: Species, heat: i16) -> Cell {
    Cell { species, clock: false, heat, grain: 0 }
}

/// A fixed source whose every draw yields the same raw value.
fn constant_source(v: u64) -> RandomSource {
    RandomSource::fixed(vec![v])
}

#[test]
fn paused_tick_is_a_no_op() {
    let mut api = SandApi::new(6, 6, true);
    api.set_absolute(2, 2, cell(Species::Sand, 20)).unwrap();
    api.toggle_pause();
    api.update().unwrap();
    assert_eq!(api.get_absolute(2, 2).unwrap(), cell(Species::Sand, 20));
    assert_eq!(api.get_absolute(2, 3).unwrap(), empty_cell());
    api.toggle_pause();
    api.rng = constant_source(50);
    api.update().unwrap();
    assert_eq!(api.get_absolute(2, 2).unwrap().species, Species::Empty);
}

#[test]
fn no_cell_is_left_clocked_after_a_tick() {
    let mut api = SandApi::new(8, 8, true);
    api.set_absolute(2, 2, cell(Species::Sand, 20)).unwrap();
    api.set_absolute(3, 2, cell(Species::Water, 50)).unwrap();
    api.set_absolute(4, 2, cell(Species::Salt, 20)).unwrap();
    api.set_absolute(5, 5, cell(Species::Lava, 5000)).unwrap();
    for _ in 0..4 {
        api.update().unwrap();
        for y in 0..8 {
            for x in 0..8 {
                assert!(!api.get_absolute(x, y).unwrap().clock);
            }
        }
    }
}

#[test]
fn border_cells_survive_many_ticks() {
    let mut api = SandApi::new(8, 8, true);
    // a violent interior: lava, water, acid, fire and sand
    api.set_absolute(1, 1, cell(Species::Lava, 5000)).unwrap();
    api.set_absolute(2, 1, cell(Species::Water, 50)).unwrap();
    api.set_absolute(3, 1, cell(Species::Acid, 20)).unwrap();
    api.set_absolute(4, 1, cell(Species::Fire, 900)).unwrap();
    api.set_absolute(5, 1, cell(Species::Sand, 20)).unwrap();
    api.set_absolute(2, 5, cell(Species::SaltWater, 200)).unwrap();
    for _ in 0..10 {
        api.update().unwrap();
        for y in 0..8 {
            for x in 0..8 {
                if x == 0 || x == 7 || y == 0 || y == 7 {
                    assert_eq!(api.get_absolute(x, y).unwrap().species, Species::Border);
                }
            }
        }
    }
}

#[test]
fn open_boundary_clears_the_outer_ring() {
    let mut api = SandApi::new(6, 6, false);
    api.set_absolute(0, 3, cell(Species::Wall, 20)).unwrap();
    api.set_absolute(3, 0, cell(Species::Wall, 20)).unwrap();
    api.set_absolute(5, 2, cell(Species::Wall, 20)).unwrap();
    api.update().unwrap();
    assert_eq!(api.get_absolute(0, 3).unwrap(), empty_cell());
    assert_eq!(api.get_absolute(3, 0).unwrap(), empty_cell());
    assert_eq!(api.get_absolute(5, 2).unwrap(), empty_cell());
}

#[test]
fn sand_falls_two_cells_and_rests_on_the_ground() {
    // a sand cell above two empty cells over solid ground reaches the ground
    // within two ticks when the settling-friction branch never triggers
    let mut api = SandApi::new(3, 5, true);
    api.rng = constant_source(50);  // 50 never hits a <10 or <3 style branch
    api.set_absolute(1, 1, cell(Species::Sand, 20)).unwrap();
    api.update().unwrap();
    api.update().unwrap();
    assert_eq!(api.get_absolute(1, 3).unwrap().species, Species::Sand);
    assert_eq!(api.get_absolute(1, 1).unwrap().species, Species::Empty);
    assert_eq!(api.get_absolute(1, 2).unwrap().species, Species::Empty);
    // it stays put afterwards
    api.update().unwrap();
    assert_eq!(api.get_absolute(1, 3).unwrap().species, Species::Sand);
}

#[test]
fn tall_drop_reaches_the_ground_in_half_the_height() {
    // with the skip branch suppressed, a granular cell falls two cells per
    // tick through empty space: height 8 of empty space takes 4 ticks
    let mut api = SandApi::new(3, 11, true);
    api.rng = constant_source(50);
    api.set_absolute(1, 1, cell(Species::Salt, 20)).unwrap();
    for _ in 0..4 {
        api.update().unwrap();
    }
    assert_eq!(api.get_absolute(1, 9).unwrap().species, Species::Salt);
}

#[test]
fn hot_water_becomes_steam_in_one_tick() {
    let mut api = SandApi::new(3, 3, true);
    api.set_absolute(1, 1, cell(Species::Water, 500)).unwrap();
    api.update().unwrap();
    assert_eq!(api.get_absolute(1, 1).unwrap().species, Species::Steam);
}

#[test]
fn cold_water_becomes_ice_in_one_tick() {
    let mut api = SandApi::new(3, 3, true);
    api.set_absolute(1, 1, cell(Species::Water, -40)).unwrap();
    api.update().unwrap();
    assert_eq!(api.get_absolute(1, 1).unwrap().species, Species::Ice);
}

#[test]
fn warm_ice_melts_back_to_water() {
    let mut api = SandApi::new(3, 3, true);
    api.set_absolute(1, 1, cell(Species::Ice, 50)).unwrap();
    api.update().unwrap();
    assert_eq!(api.get_absolute(1, 1).unwrap().species, Species::Water);
}

#[test]
fn cool_steam_condenses_to_water() {
    // below the condense threshold, one tick suffices: no draws decide it
    let mut api = SandApi::new(3, 3, true);
    api.set_absolute(1, 1, cell(Species::Steam, 50)).unwrap();
    api.update().unwrap();
    assert_eq!(api.get_absolute(1, 1).unwrap().species, Species::Water);
}

#[test]
fn boiled_water_rises_tick_after_tick() {
    let mut api = SandApi::new(3, 8, true);
    // draw pattern per steam tick: direction pick 1 (straight up), decay
    // roll 999 (no decay), drift roll 0 (lazy-drift branch not taken while
    // the steam is hot)
    api.rng = RandomSource::fixed(vec![1, 999, 0]);
    api.set_absolute(1, 6, cell(Species::Water, 5000)).unwrap();
    api.update().unwrap();
    assert_eq!(api.get_absolute(1, 6).unwrap().species, Species::Steam);
    let mut row = 6;
    for _ in 0..4 {
        api.update().unwrap();
        let above = api.get_absolute(1, row - 1).unwrap().species;
        assert_eq!(above, Species::Steam);
        assert_eq!(api.get_absolute(1, row).unwrap().species, Species::Empty);
        row -= 1;
    }
}

#[test]
fn boiling_salt_water_leaves_salt_and_steam() {
    let mut api = SandApi::new(3, 4, true);
    api.rng = constant_source(50);
    api.set_absolute(1, 2, cell(Species::SaltWater, 300)).unwrap();
    api.update().unwrap();
    assert_eq!(api.get_absolute(1, 2).unwrap().species, Species::Salt);
    assert_eq!(api.get_absolute(1, 1).unwrap().species, Species::Steam);
}

#[test]
fn cool_fire_goes_out() {
    let mut api = SandApi::new(3, 3, true);
    api.rng = constant_source(50);
    api.set_absolute(1, 1, cell(Species::Fire, 100)).unwrap();
    api.update().unwrap();
    assert_eq!(api.get_absolute(1, 1).unwrap().species, Species::Empty);
}

#[test]
fn water_flows_down_and_sideways() {
    // water on a solid shelf with one open side steps off it within a few
    // ticks (with a fixed source biasing the lateral pick)
    let mut api = SandApi::new(6, 6, true);
    api.rng = constant_source(48);  // 48 % 3 == 0: lateral pick is +1
    api.set_absolute(1, 3, cell(Species::Wall, 20)).unwrap();
    api.set_absolute(1, 2, cell(Species::Water, 50)).unwrap();
    api.update().unwrap();
    // straight down is blocked by the wall, so the water moved diagonally
    assert_eq!(api.get_absolute(1, 2).unwrap().species, Species::Empty);
    assert_eq!(api.get_absolute(2, 3).unwrap().species, Species::Water);
}

#[test]
fn grass_on_soil_grows_upward() {
    let mut api = SandApi::new(3, 5, true);
    api.rng = constant_source(50);  // 50 < 75: the sprout is plain Grass
    api.set_absolute(1, 3, cell(Species::Soil, 20)).unwrap();
    api.set_absolute(1, 2, cell(Species::Grass, 20)).unwrap();
    api.update().unwrap();
    assert_eq!(api.get_absolute(1, 1).unwrap().species, Species::Grass);
    assert_eq!(api.get_absolute(1, 2).unwrap().species, Species::Grass);
    assert_eq!(api.get_absolute(1, 3).unwrap().species, Species::Soil);
}

#[test]
fn hot_dry_mud_turns_to_sand() {
    let mut api = SandApi::new(3, 3, true);
    api.rng = constant_source(0);  // the drying roll always succeeds
    api.set_absolute(1, 1, cell(Species::Mud(0), 200)).unwrap();
    api.update().unwrap();
    assert_eq!(api.get_absolute(1, 1).unwrap().species, Species::Sand);
}

#[test]
fn acid_corrodes_an_adjacent_stone() {
    let mut api = SandApi::new(4, 4, true);
    api.rng = constant_source(0);  // every corrode roll succeeds
    api.set_absolute(1, 1, cell(Species::Acid, 20)).unwrap();
    api.set_absolute(1, 2, cell(Species::Stone, 20)).unwrap();
    api.update().unwrap();
    // the stone is eaten away; the acid slid diagonally past it
    assert_eq!(api.get_absolute(1, 2).unwrap().species, Species::Empty);
    assert_eq!(api.get_absolute(2, 2).unwrap().species, Species::Acid);
}

#[test]
fn heat_flows_from_hot_to_cold_in_ten_unit_steps() {
    let mut api = SandApi::new(4, 4, true);
    api.rng = constant_source(50);  // suppresses the melt and noise rolls
    api.set_absolute(1, 1, cell(Species::Stone, 5000)).unwrap();
    api.set_absolute(2, 1, cell(Species::Stone, 20)).unwrap();
    api.update().unwrap();
    // the hot stone's scan moved exactly ten units into the cold one; the
    // cold stone's own scan moved nothing back toward the hotter cell
    assert_eq!(api.get_absolute(1, 1).unwrap().heat, 4990);
    assert_eq!(api.get_absolute(2, 1).unwrap().heat, 30);
}

#[test]
fn mud_absorbs_adjacent_water_and_gets_wetter() {
    let mut api = SandApi::new(4, 4, true);
    // 10 passes the per-neighbor exchange roll and the absorption roll but
    // fails the water-deletion and emission rolls
    api.rng = constant_source(10);
    // both cells rest on the bottom border so neither falls away
    api.set_absolute(1, 2, cell(Species::Mud(0), 20)).unwrap();
    api.set_absolute(2, 2, cell(Species::Water, 50)).unwrap();
    api.update().unwrap();
    assert_eq!(api.get_absolute(1, 2).unwrap().species, Species::Mud(1));
}
