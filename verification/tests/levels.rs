use tilegarden::level::LevelTiles;
use tilegarden::plants::{PlantDefinition, PlantDefinitions, Rgba};
use tilegarden::tile::{GameEntity, Ground, Plant, Tile};

fn def(id: &str) -> PlantDefinition {
    PlantDefinition {
        id: id.to_string(),
        aggressiveness: 1,
        survive_threshold: 1,
        spread_threshold: 3,
        local_cost: 0,
        neighbour_cost: 0,
        seeded: false,
        color: Rgba { r: 0, g: 0, b: 0, a: 255 },
        asset: String::new(),
    }
}

fn find<'a>(level: &'a LevelTiles, t: Tile) -> &'a tilegarden::level::LevelEntry {
    level.0.iter().find(|e| e.tile == t).expect("tile missing")
}

#[test]
fn a_single_token_parses_to_the_origin() {
    let level = LevelTiles::from_str("5");
    assert_eq!(level.0.len(), 1);
    let e = &level.0[0];
    assert_eq!(e.tile, Tile(0, 0));
    assert_eq!(e.ground, Ground::Fertile(5));
    assert!(e.plant.is_none());
    assert!(e.entities.is_empty());
}

#[test]
fn ground_codes_cover_water_and_all_digits() {
    let level = LevelTiles::from_str("w 0 8");
    // max_x = 2, so the x offset is 1.
    assert_eq!(find(&level, Tile(-1, 0)).ground, Ground::Water);
    assert_eq!(find(&level, Tile(0, 0)).ground, Ground::Fertile(0));
    assert_eq!(find(&level, Tile(1, 0)).ground, Ground::Fertile(8));
}

#[test]
fn the_grid_is_recentred_with_y_growing_upward() {
    let level = LevelTiles::from_str("1 2 3\n4 5 6\n7 8 9");
    // "9" is no ground code, so the bottom-right slot stays unused.
    assert_eq!(level.0.len(), 8);
    assert_eq!(find(&level, Tile(0, 0)).ground, Ground::Fertile(5));
    assert_eq!(find(&level, Tile(-1, 1)).ground, Ground::Fertile(1));
    assert_eq!(find(&level, Tile(0, -1)).ground, Ground::Fertile(8));
    // The "9" slot at the bottom right carries no valid ground code.
    assert!(level.0.iter().all(|e| e.tile != Tile(1, -1)));
}

#[test]
fn unknown_ground_codes_still_occupy_their_column() {
    let level = LevelTiles::from_str("- 4");
    assert_eq!(level.0.len(), 1);
    // The placeholder keeps max_x at 1, so the parsed tile sits right of
    // the centre.
    assert_eq!(level.0[0].tile, Tile(1, 0));
    assert_eq!(level.0[0].ground, Ground::Fertile(4));
}

#[test]
fn plants_and_entities_parse_from_their_parts() {
    let level = LevelTiles::from_str("4:.moss:p:t.goal:x");
    let e = &level.0[0];
    assert_eq!(e.ground, Ground::Fertile(4));
    assert_eq!(e.plant.as_deref(), Some("moss"));
    assert_eq!(
        e.entities,
        vec![GameEntity::Player, GameEntity::Target("goal".to_string())]
    );
}

#[test]
fn a_part_without_the_plant_mark_is_no_plant() {
    let level = LevelTiles::from_str("4:moss");
    assert!(level.0[0].plant.is_none());
}

#[test]
fn empty_lines_are_skipped_but_counted_for_centring() {
    let level = LevelTiles::from_str("3\n\n3");
    // Three lines: the y offset is 1.
    assert_eq!(level.0.len(), 2);
    assert_eq!(level.0[0].tile, Tile(0, 1));
    assert_eq!(level.0[1].tile, Tile(0, -1));
}

#[test]
fn blank_space_and_trailing_newline_are_tolerated() {
    let level = LevelTiles::from_str("  4\t 5 \r\n");
    assert_eq!(level.0.len(), 2);
    assert_eq!(find(&level, Tile(0, 0)).ground, Ground::Fertile(4));
    assert_eq!(find(&level, Tile(1, 0)).ground, Ground::Fertile(5));
}

#[test]
fn to_grid_resolves_plants_by_name() {
    let plants = PlantDefinitions::load(vec![def("moss"), def("fern")]);
    let level = LevelTiles::from_str("4:.moss 5:.kelp w");
    let g = level.to_grid(&plants);
    assert_eq!(g.len(), 3);
    let moss_index = plants.by_name(&"moss".to_string()).unwrap();
    assert_eq!(
        g.get(Tile(-1, 0)),
        Some((Ground::Fertile(4), Plant::Species(moss_index)))
    );
    // An unknown species name resolves to an empty tile.
    assert_eq!(g.get(Tile(0, 0)), Some((Ground::Fertile(5), Plant::Empty)));
    assert_eq!(g.get(Tile(1, 0)), Some((Ground::Water, Plant::Empty)));
}

#[test]
fn empty_text_parses_to_an_empty_level() {
    let level = LevelTiles::from_str("");
    assert!(level.0.is_empty());
    let plants = PlantDefinitions::load(vec![]);
    let g = level.to_grid(&plants);
    assert_eq!(g.len(), 0);
}

#[test]
fn ground_codes_round_trip_through_to_string() {
    let level = LevelTiles::from_str("w 3");
    assert_eq!(find(&level, Tile(0, 0)).ground.to_string(), "w");
    assert_eq!(find(&level, Tile(1, 0)).ground.to_string(), "3");
}
