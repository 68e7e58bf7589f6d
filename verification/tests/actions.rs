use tilegarden::control::{use_power, use_powers, AvailablePowers, Power, Seed, UsePower};
use tilegarden::grid::Grid;
use tilegarden::plants::{PlantDefinition, PlantDefinitions, Rgba};
use tilegarden::tile::{Ground, Plant, Tile, FIRE_DURATION};

fn def(id: &str, survive: u8) -> PlantDefinition {
    PlantDefinition {
        id: id.to_string(),
        aggressiveness: 1,
        survive_threshold: survive,
        spread_threshold: 9,
        local_cost: 0,
        neighbour_cost: 0,
        seeded: false,
        color: Rgba { r: 10, g: 20, b: 30, a: 255 },
        asset: "moss.png".to_string(),
    }
}

fn one_plant_registry() -> PlantDefinitions {
    PlantDefinitions::load(vec![def("moss", 2)])
}

#[test]
fn fertilize_clamps_at_the_bound() {
    let plants = one_plant_registry();
    let mut g = Grid::new();
    g.set(Tile(0, 0), Ground::Fertile(6), Plant::Empty);
    let mut powers = AvailablePowers::new();
    powers.adjust(Power::Fertilize, 1);
    let mut seed = Seed::new();

    use_power(&mut g, &mut powers, &mut seed, &plants, Power::Fertilize, Tile(0, 0));
    assert_eq!(g.get(Tile(0, 0)).unwrap().0, Ground::Fertile(8));
    assert_eq!(powers.count(Power::Fertilize), 0);
}

#[test]
fn fertilize_reaches_neighbours_but_not_beyond() {
    let plants = one_plant_registry();
    let mut g = Grid::new();
    g.set(Tile(0, 0), Ground::Fertile(1), Plant::Empty);
    g.set(Tile(1, 1), Ground::Fertile(1), Plant::Empty);
    g.set(Tile(3, 0), Ground::Fertile(1), Plant::Empty);
    g.set(Tile(-1, 0), Ground::Water, Plant::Empty);
    let mut powers = AvailablePowers::new();
    powers.adjust(Power::Fertilize, 1);
    let mut seed = Seed::new();

    use_power(&mut g, &mut powers, &mut seed, &plants, Power::Fertilize, Tile(0, 0));
    assert_eq!(g.get(Tile(0, 0)).unwrap().0, Ground::Fertile(5));
    assert_eq!(g.get(Tile(1, 1)).unwrap().0, Ground::Fertile(5));
    assert_eq!(g.get(Tile(3, 0)).unwrap().0, Ground::Fertile(1));
    assert_eq!(g.get(Tile(-1, 0)).unwrap().0, Ground::Water);
}

#[test]
fn drain_clamps_at_zero() {
    let plants = one_plant_registry();
    let mut g = Grid::new();
    g.set(Tile(0, 0), Ground::Fertile(6), Plant::Empty);
    g.set(Tile(1, 0), Ground::Fertile(3), Plant::Empty);
    let mut powers = AvailablePowers::new();
    powers.adjust(Power::Drain, 1);
    let mut seed = Seed::new();

    use_power(&mut g, &mut powers, &mut seed, &plants, Power::Drain, Tile(0, 0));
    assert_eq!(g.get(Tile(0, 0)).unwrap().0, Ground::Fertile(2));
    assert_eq!(g.get(Tile(1, 0)).unwrap().0, Ground::Fertile(0));
    assert_eq!(powers.count(Power::Drain), 0);
}

#[test]
fn fire_ignites_an_established_plant() {
    let plants = one_plant_registry();
    let mut g = Grid::new();
    g.set(Tile(0, 0), Ground::Fertile(5), Plant::Species(0));
    let mut powers = AvailablePowers::new();
    powers.adjust(Power::Fire, 2);
    let mut seed = Seed::new();

    use_power(&mut g, &mut powers, &mut seed, &plants, Power::Fire, Tile(0, 0));
    assert_eq!(g.get(Tile(0, 0)).unwrap().1, Plant::Burning(FIRE_DURATION));
    assert_eq!(powers.count(Power::Fire), 1);
}

#[test]
fn fire_with_nothing_to_burn_is_refunded() {
    let plants = one_plant_registry();
    let mut g = Grid::new();
    g.set(Tile(0, 0), Ground::Fertile(5), Plant::Empty);
    g.set(Tile(1, 0), Ground::Water, Plant::Empty);
    let mut powers = AvailablePowers::new();
    powers.adjust(Power::Fire, 1);
    let mut seed = Seed::new();

    use_power(&mut g, &mut powers, &mut seed, &plants, Power::Fire, Tile(0, 0));
    assert_eq!(g.get(Tile(0, 0)).unwrap().1, Plant::Empty);
    assert_eq!(powers.count(Power::Fire), 1);

    use_power(&mut g, &mut powers, &mut seed, &plants, Power::Fire, Tile(1, 0));
    assert_eq!(powers.count(Power::Fire), 1);
}

#[test]
fn seed_on_empty_tile_is_consumed_with_no_effect() {
    let plants = one_plant_registry();
    let mut g = Grid::new();
    g.set(Tile(0, 0), Ground::Fertile(5), Plant::Empty);
    let mut powers = AvailablePowers::new();
    powers.adjust(Power::Seed, 1);
    let mut seed = Seed::new();

    use_power(&mut g, &mut powers, &mut seed, &plants, Power::Seed, Tile(0, 0));
    assert_eq!(powers.count(Power::Seed), 0);
    assert_eq!(powers.count(Power::Plant), 0);
    assert!(seed.0.is_none());
}

#[test]
fn seed_captures_a_plant_and_grants_a_plant_charge() {
    let plants = one_plant_registry();
    let mut g = Grid::new();
    g.set(Tile(0, 0), Ground::Fertile(5), Plant::Species(0));
    let mut powers = AvailablePowers::new();
    powers.adjust(Power::Seed, 1);
    let mut seed = Seed::new();

    use_power(&mut g, &mut powers, &mut seed, &plants, Power::Seed, Tile(0, 0));
    assert_eq!(powers.count(Power::Seed), 0);
    assert_eq!(powers.count(Power::Plant), 1);
    let info = seed.0.as_ref().unwrap();
    assert_eq!(info.id, "moss");
    assert_eq!(info.asset, "moss.png");
    assert_eq!(info.color, Rgba { r: 10, g: 20, b: 30, a: 255 });
}

#[test]
fn plant_power_plants_the_captured_seed() {
    let plants = one_plant_registry();
    let mut g = Grid::new();
    g.set(Tile(0, 0), Ground::Fertile(5), Plant::Species(0));
    g.set(Tile(4, 4), Ground::Fertile(3), Plant::Empty);
    let mut powers = AvailablePowers::new();
    powers.adjust(Power::Seed, 1);
    let mut seed = Seed::new();

    use_power(&mut g, &mut powers, &mut seed, &plants, Power::Seed, Tile(0, 0));
    use_power(&mut g, &mut powers, &mut seed, &plants, Power::Plant, Tile(4, 4));
    assert_eq!(g.get(Tile(4, 4)).unwrap().1, Plant::Species(0));
    assert_eq!(powers.count(Power::Plant), 0);
    assert!(seed.0.is_none());
}

#[test]
fn plant_power_clears_the_inventory_even_on_failure() {
    let plants = one_plant_registry();
    let mut g = Grid::new();
    g.set(Tile(0, 0), Ground::Fertile(5), Plant::Species(0));
    g.set(Tile(4, 4), Ground::Fertile(1), Plant::Empty);
    let mut powers = AvailablePowers::new();
    powers.adjust(Power::Seed, 1);
    let mut seed = Seed::new();

    use_power(&mut g, &mut powers, &mut seed, &plants, Power::Seed, Tile(0, 0));
    // survive_threshold 2 > nutrient 1: nothing is planted, but the charge
    // is spent and the inventory cleared.
    use_power(&mut g, &mut powers, &mut seed, &plants, Power::Plant, Tile(4, 4));
    assert_eq!(g.get(Tile(4, 4)).unwrap().1, Plant::Empty);
    assert_eq!(powers.count(Power::Plant), 0);
    assert!(seed.0.is_none());
}

#[test]
fn an_action_without_charge_changes_nothing() {
    let plants = one_plant_registry();
    let mut g = Grid::new();
    g.set(Tile(0, 0), Ground::Fertile(6), Plant::Empty);
    let mut powers = AvailablePowers::new();
    let mut seed = Seed::new();

    use_power(&mut g, &mut powers, &mut seed, &plants, Power::Fertilize, Tile(0, 0));
    assert_eq!(g.get(Tile(0, 0)).unwrap().0, Ground::Fertile(6));
    assert_eq!(powers.count(Power::Fertilize), 0);
}

#[test]
fn an_action_on_a_missing_tile_changes_nothing() {
    let plants = one_plant_registry();
    let mut g = Grid::new();
    g.set(Tile(0, 0), Ground::Fertile(6), Plant::Empty);
    let mut powers = AvailablePowers::new();
    powers.adjust(Power::Drain, 1);
    let mut seed = Seed::new();

    use_power(&mut g, &mut powers, &mut seed, &plants, Power::Drain, Tile(9, 9));
    assert_eq!(g.get(Tile(0, 0)).unwrap().0, Ground::Fertile(6));
    assert_eq!(powers.count(Power::Drain), 1);
}

#[test]
fn adjust_saturates_at_zero() {
    let mut powers = AvailablePowers::new();
    powers.adjust(Power::Fire, 3);
    powers.adjust(Power::Fire, -5);
    assert_eq!(powers.count(Power::Fire), 0);
    powers.adjust(Power::Fire, 2);
    assert_eq!(powers.count(Power::Fire), 2);
}

#[test]
fn a_queue_is_drained_in_arrival_order() {
    let plants = one_plant_registry();
    let mut g = Grid::new();
    g.set(Tile(0, 0), Ground::Fertile(5), Plant::Species(0));
    g.set(Tile(1, 0), Ground::Fertile(8), Plant::Empty);
    let mut powers = AvailablePowers::new();
    powers.adjust(Power::Seed, 1);
    let mut seed = Seed::new();

    let queue = vec![
        UsePower(Power::Seed, Tile(0, 0)),
        UsePower(Power::Plant, Tile(1, 0)),
    ];
    use_powers(&mut g, &mut powers, &mut seed, &plants, &queue);
    assert_eq!(g.get(Tile(1, 0)).unwrap().1, Plant::Species(0));
    assert_eq!(powers.count(Power::Seed), 0);
    assert_eq!(powers.count(Power::Plant), 0);
}

#[test]
fn power_names_are_stable() {
    assert_eq!(Power::Fertilize.to_string(), "Fertilize");
    assert_eq!(Power::Fire.to_string(), "Fire");
    assert_eq!(Power::Seed.to_string(), "Seed");
    assert_eq!(Power::Drain.to_string(), "Drain");
    assert_eq!(Power::Plant.to_string(), "Plant");
}
