use sandsim::cell::{
    Cell, Species, FlowerColor, empty_cell, heat_add, heat_sub, MAX_WETNESS,
};
use sandsim::rng::RandomSource;

#[test]
fn fresh_cells_start_at_their_species_temperature() {
    assert_eq!(Cell::new(Species::Lava).heat, 5000);
    assert_eq!(Cell::new(Species::Fire).heat, 800);
    assert_eq!(Cell::new(Species::BlueFire).heat, 3000);
    assert_eq!(Cell::new(Species::Ice).heat, -160);
    assert_eq!(Cell::new(Species::Sand).heat, 20);
    assert!(!Cell::new(Species::Water).clock);
    assert_eq!(Cell::default().species, Species::Empty);
    assert_eq!(empty_cell(), Cell { species: Species::Empty, clock: false, heat: 0, grain: 0 });
}

#[test]
fn named_constructors_build_their_species() {
    assert_eq!(Cell::mud().species, Species::Mud(0));
    assert_eq!(Cell::water_grass().species, Species::WaterGrass(0));
    assert_eq!(Cell::unbound_clone().species, Species::Clone(None));
    assert!(matches!(Cell::flower().species, Species::Flower(_)));
}

#[test]
fn payloads_step_up_and_down_with_saturation() {
    let mut s = Species::Mud(1);
    s.incr();
    assert_eq!(s, Species::Mud(2));
    s.decr();
    s.decr();
    s.decr();
    assert_eq!(s, Species::Mud(0));
    let mut w = Species::WaterGrass(255);
    w.incr();
    assert_eq!(w, Species::WaterGrass(255));
    let mut other = Species::Sand;
    other.incr();
    other.decr();
    assert_eq!(other, Species::Sand);
    assert_eq!(MAX_WETNESS, 2);
}

#[test]
fn material_classes_partition_as_documented() {
    let of = |s: Species| Cell { species: s, clock: false, heat: 20, grain: 0 };
    assert!(of(Species::Water).is_liquid());
    assert!(of(Species::SaltWater).is_liquid());
    assert!(of(Species::Lava).is_liquid());
    assert!(of(Species::Acid).is_liquid());
    assert!(!of(Species::Steam).is_liquid());
    assert!(of(Species::Steam).is_gas());
    assert!(of(Species::Empty).is_fluid());
    assert!(of(Species::Water).is_fluid());
    assert!(!of(Species::Sand).is_fluid());
    assert!(of(Species::Wall).is_solid());
    assert!(of(Species::Border).is_solid());
    assert!(of(Species::Stone).is_solid());
    assert!(of(Species::Ice).is_solid());
    assert!(!of(Species::Sand).is_solid());
    assert!(of(Species::Grass).is_flammable());
    assert!(of(Species::GrassTip).is_flammable());
    assert!(of(Species::Flower(FlowerColor::Red)).is_flammable());
    assert!(!of(Species::Wall).is_flammable());
    assert!(of(Species::Sand).is_corrodable());
    assert!(!of(Species::Acid).is_corrodable());
    assert!(!of(Species::Border).is_corrodable());
    assert!(!of(Species::Steam).is_corrodable());
    assert!(of(Species::Grass).liquid_destroyable());
    assert!(of(Species::Sand).turns_to_lava());
    assert!(of(Species::Stone).turns_to_lava());
    assert!(!of(Species::Wall).turns_to_lava());
    assert!(of(Species::Water).douses_fire());
    assert!(!of(Species::Fire).douses_fire());
    assert!(!of(Species::Wall).douses_fire());
    assert!(of(Species::Ice).is_cold());
}

#[test]
fn regrain_changes_only_the_grain() {
    let mut c = Cell { species: Species::Sand, clock: true, heat: 77, grain: 0 };
    c.regrain();
    assert_eq!(c.species, Species::Sand);
    assert!(c.clock);
    assert_eq!(c.heat, 77);
}

#[test]
fn heat_arithmetic_saturates_at_the_limits() {
    assert_eq!(heat_add(100, 20), 120);
    assert_eq!(heat_add(32760, 100), 32767);
    assert_eq!(heat_sub(-32760, 100), -32768);
    assert_eq!(heat_sub(50, 70), -20);
}

#[test]
fn ambient_draws_stay_below_their_bound() {
    let mut src = RandomSource::ambient();
    for _ in 0..200 {
        assert!(src.below(7) < 7);
        assert!(src.below(1) == 0);
    }
}

#[test]
fn fixed_draws_replay_their_sequence() {
    let mut src = RandomSource::fixed(vec![3, 14, 15, 92]);
    assert_eq!(src.below(100), 3);
    assert_eq!(src.below(100), 14);
    assert_eq!(src.below(10), 5);
    assert_eq!(src.below(100), 92);
    // the sequence wraps around
    assert_eq!(src.below(100), 3);
    let mut empty = RandomSource::fixed(Vec::new());
    assert_eq!(empty.below(50), 0);
}
