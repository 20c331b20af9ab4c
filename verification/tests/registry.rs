use sandsim::api::SandApi;
use sandsim::cell::{Cell, Species, empty_cell};
use sandsim::rng::RandomSource;
use sandsim::zone::Zone;

fn cell(species: Species, heat: i16) -> Cell {
    Cell { species, clock: false, heat, grain: 0 }
}

#[test]
fn insert_fills_the_lowest_free_slot() {
    let mut z: Zone<u32> = Zone::new();
    assert_eq!(z.insert(10), Some(0));
    assert_eq!(z.insert(11), Some(1));
    assert_eq!(z.insert(12), Some(2));
    assert_eq!(z.len(), 3);
    assert_eq!(z.get(1), &Some(11));
    assert_eq!(z.remove(1), Some(11));
    assert_eq!(z.get(1), &None);
    assert_eq!(z.len(), 3);
    // the freed slot is reused before the arena grows
    assert_eq!(z.insert(13), Some(1));
    assert_eq!(z.get(1), &Some(13));
    assert_eq!(z.insert(14), Some(3));
}

#[test]
fn store_and_resolve_cloned_species() {
    let mut api = SandApi::new(4, 4, true);
    let id = api.store_cloned_cell(Species::Lava).unwrap();
    let resolved = api.get_cloned_cell(id).unwrap();
    assert_eq!(resolved.species, Species::Lava);
    assert_eq!(resolved.heat, 5000);
    assert!(!resolved.clock);
    // a dangling identifier resolves to nothing
    assert!(api.get_cloned_cell(id + 1).is_none());
}

#[test]
fn clone_registers_frees_and_reuses_a_slot() {
    let mut api = SandApi::new(4, 4, true);
    // 50 suppresses every probabilistic branch this test does not want
    api.rng = RandomSource::fixed(vec![50]);
    api.set_absolute(1, 1, cell(Species::Clone(None), 20)).unwrap();
    api.set_absolute(2, 1, cell(Species::Wall, 20)).unwrap();

    // the unbound Clone registers its single eligible neighbor
    api.update().unwrap();
    let bound = api.get_absolute(1, 1).unwrap().species;
    let id = match bound {
        Species::Clone(Some(id)) => id,
        other => panic!("expected a bound Clone, found {:?}", other),
    };
    assert_eq!(id, 0);
    assert_eq!(api.get_cloned_cell(id).unwrap().species, Species::Wall);

    // the identifier stays allocated while the Clone cell references it
    api.set_absolute(2, 1, empty_cell()).unwrap();
    api.update().unwrap();
    assert_eq!(api.get_cloned_cell(id).unwrap().species, Species::Wall);

    // once no cell references it, the next tick's sweep frees the slot
    api.set_absolute(1, 1, empty_cell()).unwrap();
    api.update().unwrap();
    assert!(api.get_cloned_cell(id).is_none());

    // a later registration reuses the freed slot
    api.set_absolute(1, 1, cell(Species::Clone(None), 20)).unwrap();
    api.set_absolute(2, 1, cell(Species::Stone, 20)).unwrap();
    api.update().unwrap();
    match api.get_absolute(1, 1).unwrap().species {
        Species::Clone(Some(new_id)) => {
            assert_eq!(new_id, 0);
            assert_eq!(api.get_cloned_cell(new_id).unwrap().species, Species::Stone);
        }
        other => panic!("expected a bound Clone, found {:?}", other),
    }
}

#[test]
fn bound_clone_stamps_copies_of_the_registered_species() {
    let mut api = SandApi::new(4, 4, true);
    // make every stamping roll succeed (0 < 5 and 0 < 10)
    api.rng = RandomSource::fixed(vec![0]);
    api.set_absolute(1, 1, cell(Species::Clone(None), 20)).unwrap();
    api.set_absolute(2, 1, cell(Species::Wall, 20)).unwrap();
    api.update().unwrap();
    // by now the Clone is bound; the next tick stamps Wall copies into
    // adjacent empty cells
    api.update().unwrap();
    assert_eq!(api.get_absolute(1, 2).unwrap().species, Species::Wall);
    assert_eq!(api.get_absolute(2, 2).unwrap().species, Species::Wall);
}
