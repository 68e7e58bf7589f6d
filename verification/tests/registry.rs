use tilegarden::grid::Grid;
use tilegarden::plants::{migrate_grid, PlantDefinition, PlantDefinitions, Rgba};
use tilegarden::tile::{Ground, Plant, Tile};

fn def(
    id: &str,
    aggressiveness: u8,
    survive: u8,
    spread: u8,
    local_cost: u8,
    neighbour_cost: u8,
    seeded: bool,
) -> PlantDefinition {
    PlantDefinition {
        id: id.to_string(),
        aggressiveness,
        survive_threshold: survive,
        spread_threshold: spread,
        local_cost,
        neighbour_cost,
        seeded,
        color: Rgba { r: 0, g: 0, b: 0, a: 255 },
        asset: String::new(),
    }
}

#[test]
fn priority_is_by_aggressiveness_not_declaration_order() {
    let plants = PlantDefinitions::load(vec![
        def("weed", 1, 1, 1, 0, 0, false),
        def("bramble", 7, 1, 1, 0, 0, false),
        def("shrub", 4, 1, 1, 0, 0, false),
    ]);
    assert_eq!(plants.definitions[0].id, "bramble");
    assert_eq!(plants.definitions[1].id, "shrub");
    assert_eq!(plants.definitions[2].id, "weed");
}

#[test]
fn priority_order_is_input_order_independent() {
    let a = PlantDefinitions::load(vec![
        def("weed", 1, 1, 1, 0, 0, false),
        def("bramble", 7, 1, 1, 0, 0, false),
    ]);
    let b = PlantDefinitions::load(vec![
        def("bramble", 7, 1, 1, 0, 0, false),
        def("weed", 1, 1, 1, 0, 0, false),
    ]);
    assert_eq!(a.definitions[0].id, b.definitions[0].id);
    assert_eq!(a.definitions[1].id, b.definitions[1].id);
}

#[test]
fn seeded_outranks_unseeded_at_equal_aggressiveness() {
    let plants = PlantDefinitions::load(vec![
        def("wild", 3, 1, 1, 0, 0, false),
        def("sown", 3, 1, 1, 0, 0, true),
    ]);
    assert_eq!(plants.definitions[0].id, "sown");
}

#[test]
fn remaining_tiebreakers_run_in_order() {
    // Equal aggressiveness and seeded flag: higher spread threshold first,
    // then higher survive threshold, then higher costs.
    let plants = PlantDefinitions::load(vec![
        def("low_spread", 2, 5, 1, 0, 0, false),
        def("high_spread", 2, 1, 6, 0, 0, false),
        def("high_survive", 2, 5, 6, 0, 0, false),
    ]);
    assert_eq!(plants.definitions[0].id, "high_survive");
    assert_eq!(plants.definitions[1].id, "high_spread");
    assert_eq!(plants.definitions[2].id, "low_spread");
}

#[test]
fn duplicate_names_keep_the_first_definition() {
    let plants = PlantDefinitions::load(vec![
        def("moss", 2, 1, 1, 0, 0, false),
        def("moss", 9, 8, 8, 1, 1, true),
    ]);
    assert_eq!(plants.definitions.len(), 1);
    assert_eq!(plants.definitions[0].aggressiveness, 2);
}

#[test]
fn lookup_by_name_and_index() {
    let plants = PlantDefinitions::load(vec![
        def("weed", 1, 1, 1, 0, 0, false),
        def("bramble", 7, 1, 1, 0, 0, false),
    ]);
    assert_eq!(plants.by_name(&"bramble".to_string()), Some(0));
    assert_eq!(plants.by_name(&"weed".to_string()), Some(1));
    assert_eq!(plants.by_name(&"kelp".to_string()), None);
    assert_eq!(plants.by_index(1).unwrap().id, "weed");
    assert!(plants.by_index(2).is_none());
    assert_eq!(plants.len(), 2);
}

#[test]
fn plant_definition_lookup_follows_the_index() {
    let plants = PlantDefinitions::load(vec![def("weed", 1, 1, 1, 0, 0, false)]);
    assert_eq!(Plant::Species(0).definition(&plants).unwrap().id, "weed");
    assert!(Plant::Species(3).definition(&plants).is_none());
    assert!(Plant::Empty.definition(&plants).is_none());
    assert!(Plant::Burning(2).definition(&plants).is_none());
}

#[test]
fn migration_re_resolves_species_by_name() {
    let old_plants = PlantDefinitions::load(vec![
        def("weed", 1, 1, 1, 0, 0, false),
        def("bramble", 7, 1, 1, 0, 0, false),
    ]);
    // bramble: 0, weed: 1.
    let new_plants = PlantDefinitions::load(vec![def("weed", 1, 1, 1, 0, 0, false)]);

    let mut g = Grid::new();
    g.set(Tile(0, 0), Ground::Fertile(5), Plant::Species(1)); // weed
    g.set(Tile(1, 0), Ground::Fertile(5), Plant::Species(0)); // bramble
    g.set(Tile(2, 0), Ground::Fertile(5), Plant::Species(9)); // never issued
    g.set(Tile(3, 0), Ground::Water, Plant::Burning(2));

    let g2 = migrate_grid(&g, &old_plants, &new_plants);
    assert_eq!(g2.get(Tile(0, 0)).unwrap().1, Plant::Species(0));
    assert_eq!(g2.get(Tile(1, 0)).unwrap().1, Plant::Empty);
    assert_eq!(g2.get(Tile(2, 0)).unwrap().1, Plant::Empty);
    assert_eq!(g2.get(Tile(3, 0)).unwrap().1, Plant::Burning(2));
}
