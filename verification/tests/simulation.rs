use tilegarden::grid::Grid;
use tilegarden::plants::{PlantDefinition, PlantDefinitions, Rgba};
use tilegarden::tile::{Ground, Plant, Tile, FIRE_DURATION, MAX_NUTRIENT};
use tilegarden::update_tiles::{neighbors, run_ticks, update_tiles};

fn def(
    id: &str,
    aggressiveness: u8,
    survive: u8,
    spread: u8,
    local_cost: u8,
    neighbour_cost: u8,
    seeded: bool,
) -> PlantDefinition {
    PlantDefinition {
        id: id.to_string(),
        aggressiveness,
        survive_threshold: survive,
        spread_threshold: spread,
        local_cost,
        neighbour_cost,
        seeded,
        color: Rgba { r: 0, g: 0, b: 0, a: 255 },
        asset: String::new(),
    }
}

fn moss_registry() -> PlantDefinitions {
    PlantDefinitions::load(vec![def("moss", 0, 1, 3, 0, 0, false)])
}

#[test]
fn isolated_tile_grows_moss_and_reaches_fixed_point() {
    let plants = moss_registry();
    let mut g = Grid::new();
    g.set(Tile(0, 0), Ground::Fertile(8), Plant::Empty);

    let g1 = update_tiles(&g, &plants);
    assert_eq!(g1.get(Tile(0, 0)), Some((Ground::Fertile(8), Plant::Species(0))));

    let g2 = update_tiles(&g1, &plants);
    assert_eq!(g2.get(Tile(0, 0)), Some((Ground::Fertile(8), Plant::Species(0))));
}

#[test]
fn plant_below_survive_threshold_dies() {
    let plants = PlantDefinitions::load(vec![def("fern", 0, 5, 9, 0, 0, false)]);
    let mut g = Grid::new();
    g.set(Tile(0, 0), Ground::Fertile(4), Plant::Species(0));

    let g1 = update_tiles(&g, &plants);
    assert_eq!(g1.get(Tile(0, 0)), Some((Ground::Fertile(4), Plant::Empty)));
}

#[test]
fn fire_burns_down_in_exactly_its_count() {
    let plants = moss_registry();
    let mut g = Grid::new();
    g.set(Tile(0, 0), Ground::Fertile(0), Plant::Burning(3));

    let g1 = update_tiles(&g, &plants);
    assert_eq!(g1.get(Tile(0, 0)).unwrap().1, Plant::Burning(2));
    let g2 = update_tiles(&g1, &plants);
    assert_eq!(g2.get(Tile(0, 0)).unwrap().1, Plant::Burning(1));
    let g3 = update_tiles(&g2, &plants);
    assert_eq!(g3.get(Tile(0, 0)).unwrap().1, Plant::Empty);
}

#[test]
fn water_keeps_its_ground_and_clears_its_plant() {
    let plants = moss_registry();
    let mut g = Grid::new();
    g.set(Tile(0, 0), Ground::Water, Plant::Species(0));
    g.set(Tile(1, 0), Ground::Fertile(8), Plant::Empty);

    let g1 = update_tiles(&g, &plants);
    assert_eq!(g1.get(Tile(0, 0)), Some((Ground::Water, Plant::Empty)));
}

#[test]
fn diffusion_averages_with_water_runoff() {
    // Centre Fertile(4) with a water neighbour (worth 16) and a fertile
    // neighbour worth 7 - 2: (4 + 16 + 5) / 3 = 8.
    let plants = PlantDefinitions::load(vec![def("reed", 0, 1, 9, 0, 2, false)]);
    let mut g = Grid::new();
    g.set(Tile(0, 0), Ground::Fertile(4), Plant::Empty);
    g.set(Tile(1, 0), Ground::Water, Plant::Empty);
    g.set(Tile(0, 1), Ground::Fertile(7), Plant::Species(0));

    let g1 = update_tiles(&g, &plants);
    assert_eq!(g1.get(Tile(0, 0)).unwrap().0, Ground::Fertile(8));
}

#[test]
fn diffusion_truncates_toward_zero() {
    let plants = moss_registry();
    let mut g = Grid::new();
    g.set(Tile(0, 0), Ground::Fertile(2), Plant::Empty);
    g.set(Tile(1, 0), Ground::Fertile(1), Plant::Empty);

    let g1 = update_tiles(&g, &plants);
    // (2 + 1) / 2 = 1
    assert_eq!(g1.get(Tile(0, 0)).unwrap().0, Ground::Fertile(1));
}

#[test]
fn diffusion_clamps_at_the_nutrient_bound() {
    let plants = moss_registry();
    let mut g = Grid::new();
    g.set(Tile(0, 0), Ground::Fertile(8), Plant::Empty);
    g.set(Tile(1, 0), Ground::Water, Plant::Empty);
    g.set(Tile(-1, 0), Ground::Water, Plant::Empty);

    let g1 = update_tiles(&g, &plants);
    // (8 + 16 + 16) / 3 = 13, clamped to 8.
    assert_eq!(g1.get(Tile(0, 0)).unwrap().0, Ground::Fertile(MAX_NUTRIENT));
}

#[test]
fn diffusion_subtracts_the_local_cost() {
    let plants = PlantDefinitions::load(vec![def("oak", 0, 0, 9, 3, 0, false)]);
    let mut g = Grid::new();
    g.set(Tile(0, 0), Ground::Fertile(5), Plant::Species(0));

    let g1 = update_tiles(&g, &plants);
    // local available 5 - 3 = 2, no neighbours: 2 / 1 = 2.
    assert_eq!(g1.get(Tile(0, 0)).unwrap().0, Ground::Fertile(2));
}

#[test]
fn seeded_species_needs_an_established_neighbour() {
    let plants = PlantDefinitions::load(vec![def("vine", 0, 1, 3, 0, 0, true)]);
    let mut g = Grid::new();
    g.set(Tile(0, 0), Ground::Fertile(8), Plant::Empty);

    let g1 = update_tiles(&g, &plants);
    assert_eq!(g1.get(Tile(0, 0)).unwrap().1, Plant::Empty);

    let mut g2 = Grid::new();
    g2.set(Tile(0, 0), Ground::Fertile(8), Plant::Empty);
    g2.set(Tile(1, 1), Ground::Fertile(8), Plant::Species(0));
    let g3 = update_tiles(&g2, &plants);
    assert_eq!(g3.get(Tile(0, 0)).unwrap().1, Plant::Species(0));
}

#[test]
fn higher_priority_invader_displaces_surviving_incumbent() {
    // The incumbent would survive on its own, but a more aggressive
    // species' spread condition is checked first in priority order.
    let plants = PlantDefinitions::load(vec![
        def("meek", 1, 1, 9, 0, 0, false),
        def("fierce", 5, 1, 4, 0, 0, false),
    ]);
    // fierce sorts first: index 0.
    assert_eq!(plants.definitions[0].id, "fierce");
    let mut g = Grid::new();
    g.set(Tile(0, 0), Ground::Fertile(8), Plant::Species(1));

    let g1 = update_tiles(&g, &plants);
    assert_eq!(g1.get(Tile(0, 0)).unwrap().1, Plant::Species(0));
}

#[test]
fn unregistered_species_never_qualifies() {
    let plants = PlantDefinitions::load(vec![def("shy", 0, 1, 9, 0, 0, false)]);
    let mut g = Grid::new();
    g.set(Tile(0, 0), Ground::Fertile(8), Plant::Species(7));

    let g1 = update_tiles(&g, &plants);
    assert_eq!(g1.get(Tile(0, 0)).unwrap().1, Plant::Empty);
}

#[test]
fn burning_tile_ignores_growth_this_tick() {
    let plants = moss_registry();
    let mut g = Grid::new();
    g.set(Tile(0, 0), Ground::Fertile(8), Plant::Burning(FIRE_DURATION));

    let g1 = update_tiles(&g, &plants);
    assert_eq!(g1.get(Tile(0, 0)).unwrap().1, Plant::Burning(FIRE_DURATION - 1));
}

#[test]
fn the_tick_does_not_depend_on_insertion_order() {
    let plants = PlantDefinitions::load(vec![def("moss", 2, 1, 3, 1, 1, false)]);
    let tiles = [
        (Tile(0, 0), Ground::Fertile(8), Plant::Species(0)),
        (Tile(1, 0), Ground::Fertile(2), Plant::Empty),
        (Tile(0, 1), Ground::Water, Plant::Empty),
        (Tile(-1, -1), Ground::Fertile(5), Plant::Burning(2)),
    ];
    let mut forward = Grid::new();
    for (t, g, p) in tiles.iter() {
        forward.set(*t, *g, *p);
    }
    let mut backward = Grid::new();
    for (t, g, p) in tiles.iter().rev() {
        backward.set(*t, *g, *p);
    }

    let f1 = update_tiles(&forward, &plants);
    let b1 = update_tiles(&backward, &plants);
    for (t, _, _) in tiles.iter() {
        assert_eq!(f1.get(*t), b1.get(*t));
    }
}

#[test]
fn snapshot_is_an_independent_copy() {
    let mut g = Grid::new();
    g.set(Tile(2, 3), Ground::Fertile(5), Plant::Empty);
    let snap = g.snapshot();
    g.set(Tile(2, 3), Ground::Fertile(1), Plant::Empty);
    assert_eq!(snap.get(Tile(2, 3)), Some((Ground::Fertile(5), Plant::Empty)));
    assert_eq!(g.get(Tile(2, 3)), Some((Ground::Fertile(1), Plant::Empty)));
}

#[test]
fn run_ticks_matches_repeated_single_ticks() {
    let plants = moss_registry();
    let mut g = Grid::new();
    g.set(Tile(0, 0), Ground::Fertile(8), Plant::Burning(2));
    g.set(Tile(1, 0), Ground::Fertile(8), Plant::Empty);

    let twice = update_tiles(&update_tiles(&g, &plants), &plants);
    let ran = run_ticks(&g, &plants, 2);
    let mut i = 0;
    while i < ran.len() {
        assert_eq!(ran.entry_at(i), twice.entry_at(i));
        i += 1;
    }
    assert_eq!(ran.get(Tile(0, 0)).unwrap().1, Plant::Empty);
}

#[test]
fn neighbours_come_in_offset_order_and_skip_absences() {
    let mut g = Grid::new();
    g.set(Tile(0, 0), Ground::Fertile(4), Plant::Empty);
    g.set(Tile(-1, -1), Ground::Water, Plant::Empty);
    g.set(Tile(1, 0), Ground::Fertile(7), Plant::Species(0));
    g.set(Tile(5, 5), Ground::Fertile(1), Plant::Empty);

    let ns = neighbors(&g, Tile(0, 0));
    assert_eq!(
        ns,
        vec![
            (Ground::Water, Plant::Empty),
            (Ground::Fertile(7), Plant::Species(0)),
        ]
    );
}

#[test]
fn absent_tiles_are_not_neighbours() {
    let plants = moss_registry();
    let mut g = Grid::new();
    g.set(Tile(0, 0), Ground::Fertile(6), Plant::Empty);

    let g1 = update_tiles(&g, &plants);
    // No present neighbours: 6 / 1 = 6, unchanged.
    assert_eq!(g1.get(Tile(0, 0)).unwrap().0, Ground::Fertile(6));
    assert_eq!(g.len(), 1);
}
