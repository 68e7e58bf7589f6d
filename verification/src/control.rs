//! The consumable-action economy: the charge ledger, the single-slot seed
//! inventory, and the resolver that applies player powers to the grid.
//!
//! Every action first checks its charge: with a count of zero, or a target
//! tile that is not on the grid, it is a complete no-op. Otherwise the charge
//! is consumed and the effect applied, even when the effect turns out to be
//! nothing. The one exception is the fire power, whose charge is refunded
//! when the target has nothing to burn: a failed precondition leaves ledger
//! and grid untouched.

use vstd::prelude::*;

use crate::grid::{has_tile, tile_at, tiles_unique, Grid, TileEntry};
use crate::plants::{spec_by_name, PlantDefinition, PlantDefinitions, Rgba};
use crate::tile::{Ground, Plant, Tile, DRAIN_AMOUNT, FERTILIZE_BOOST, FIRE_DURATION, MAX_NUTRIENT};

verus! {

/// The five consumable player powers.
#[derive(Debug, Clone, Copy, PartialEq, Eq, Structural, Hash)]
pub enum Power {
    Fertilize,
    Fire,
    Seed,
    Drain,
    Plant,
}

impl Power {
    /// The power's display name.
    pub fn to_string(&self) -> (r: String)
        ensures
            r@ == match *self {
                Power::Fertilize => "Fertilize"@,
                Power::Fire => "Fire"@,
                Power::Seed => "Seed"@,
                Power::Drain => "Drain"@,
                Power::Plant => "Plant"@,
            },
    {
        match self {
            Power::Fertilize => "Fertilize".to_owned(),
            Power::Fire => "Fire".to_owned(),
            Power::Seed => "Seed".to_owned(),
            Power::Drain => "Drain".to_owned(),
            Power::Plant => "Plant".to_owned(),
        }
    }
}

/// A request to apply a power to a tile.
#[derive(Debug, Clone, Copy, PartialEq, Eq, Structural, Hash)]
pub struct UsePower(pub Power, pub Tile);

/// The charge ledger: how many uses of each power remain. Counts are never
/// negative; a count of zero means the power cannot be used.
#[derive(Debug, Clone, Copy, PartialEq, Eq, Structural)]
pub struct AvailablePowers {
    pub fertilize: usize,
    pub fire: usize,
    pub seed: usize,
    pub drain: usize,
    pub plant: usize,
}

/// `c + val`, clamped into the range of a count.
pub open spec fn clamp_adjust(c: usize, val: int) -> usize {
    if c + val < 0 {
        0
    } else if c + val > usize::MAX {
        usize::MAX
    } else {
        (c + val) as usize
    }
}

impl AvailablePowers {
    pub open spec fn spec_count(self, p: Power) -> usize {
        match p {
            Power::Fertilize => self.fertilize,
            Power::Fire => self.fire,
            Power::Seed => self.seed,
            Power::Drain => self.drain,
            Power::Plant => self.plant,
        }
    }

    /// The ledger with the count of `p` replaced by `v`.
    pub open spec fn spec_with(self, p: Power, v: usize) -> AvailablePowers {
        match p {
            Power::Fertilize => AvailablePowers { fertilize: v, ..self },
            Power::Fire => AvailablePowers { fire: v, ..self },
            Power::Seed => AvailablePowers { seed: v, ..self },
            Power::Drain => AvailablePowers { drain: v, ..self },
            Power::Plant => AvailablePowers { plant: v, ..self },
        }
    }

    /// An empty ledger, the state at level start and level end.
    pub fn new() -> (r: AvailablePowers)
        ensures
            forall|p: Power| r.spec_count(p) == 0,
    {
        AvailablePowers { fertilize: 0, fire: 0, seed: 0, drain: 0, plant: 0 }
    }

    pub fn count(&self, p: Power) -> (n: usize)
        ensures
            n == self.spec_count(p),
    {
        match p {
            Power::Fertilize => self.fertilize,
            Power::Fire => self.fire,
            Power::Seed => self.seed,
            Power::Drain => self.drain,
            Power::Plant => self.plant,
        }
    }

    fn set_value(&mut self, p: Power, v: usize)
        ensures
            *final(self) == old(self).spec_with(p, v),
    {
        match p {
            Power::Fertilize => self.fertilize = v,
            Power::Fire => self.fire = v,
            Power::Seed => self.seed = v,
            Power::Drain => self.drain = v,
            Power::Plant => self.plant = v,
        }
    }

    /// Add `val` (possibly negative) to the count of `p`, saturating at the
    /// ends of the count's range so that it never goes negative.
    pub fn adjust(&mut self, p: Power, val: i32)
        ensures
            *final(self) == old(self).spec_with(
                p,
                clamp_adjust(old(self).spec_count(p), val as int),
            ),
    {
        let c = self.count(p);
        if val >= 0 {
            let add = val as usize;
            let v = if c > usize::MAX - add {
                usize::MAX
            } else {
                c + add
            };
            self.set_value(p, v);
        } else {
            let sub = (-(val as i64)) as usize;
            let v = if c > sub {
                c - sub
            } else {
                0
            };
            self.set_value(p, v);
        }
    }
}

/// The contents of a seed captured from an established plant: its species
/// name, its render asset and its colour.
#[derive(Debug)]
pub struct SeedInfo {
    pub id: String,
    pub asset: String,
    pub color: Rgba,
}

/// The single-slot seed inventory: at most one captured seed.
#[derive(Debug)]
pub struct Seed(pub Option<SeedInfo>);

/// The mathematical contents of the seed inventory.
pub open spec fn seed_view(s: Seed) -> Option<(Seq<char>, Seq<char>, Rgba)> {
    match s.0 {
        Some(info) => Some((info.id@, info.asset@, info.color)),
        None => None,
    }
}

impl Seed {
    /// An empty inventory, the state at level start and level end.
    pub fn new() -> (r: Seed)
        ensures
            seed_view(r) is None,
    {
        Seed(None)
    }
}

// ----- the effects on the grid -----

/// Chebyshev distance at most one: the tile itself or one of its eight
/// neighbours.
pub open spec fn adjacent(a: Tile, b: Tile) -> bool {
    -1 <= a.0 - b.0 <= 1 && -1 <= a.1 - b.1 <= 1
}

fn adjacent_exec(a: Tile, b: Tile) -> (r: bool)
    ensures
        r == adjacent(a, b),
{
    let dx: i64 = a.0 as i64 - b.0 as i64;
    let dy: i64 = a.1 as i64 - b.1 as i64;
    -1 <= dx && dx <= 1 && -1 <= dy && dy <= 1
}

/// Fertile ground with the fertilize boost added, clamped to the nutrient
/// bound; water is unchanged.
pub open spec fn boosted(g: Ground) -> Ground {
    match g {
        Ground::Water => Ground::Water,
        Ground::Fertile(n) => Ground::Fertile(
            if n + FERTILIZE_BOOST > MAX_NUTRIENT {
                MAX_NUTRIENT
            } else {
                (n + FERTILIZE_BOOST) as u8
            },
        ),
    }
}

/// Fertile ground with the drain amount removed, clamped at zero; water is
/// unchanged.
pub open spec fn drained(g: Ground) -> Ground {
    match g {
        Ground::Water => Ground::Water,
        Ground::Fertile(n) => Ground::Fertile(
            if n >= DRAIN_AMOUNT {
                (n - DRAIN_AMOUNT) as u8
            } else {
                0
            },
        ),
    }
}

fn boost_ground(g: Ground) -> (r: Ground)
    ensures
        r == boosted(g),
        r.wf(),
{
    match g {
        Ground::Water => Ground::Water,
        Ground::Fertile(n) => {
            let s: u32 = n as u32 + FERTILIZE_BOOST as u32;
            if s > MAX_NUTRIENT as u32 {
                Ground::Fertile(MAX_NUTRIENT)
            } else {
                Ground::Fertile(s as u8)
            }
        },
    }
}

fn drain_ground(g: Ground) -> (r: Ground)
    requires
        g.wf(),
    ensures
        r == drained(g),
        r.wf(),
{
    match g {
        Ground::Water => Ground::Water,
        Ground::Fertile(n) => {
            if n >= DRAIN_AMOUNT {
                Ground::Fertile(n - DRAIN_AMOUNT)
            } else {
                Ground::Fertile(0)
            }
        },
    }
}

/// The grid with the target tile and every present neighbour fertilized.
pub open spec fn fertilize_seq(s: Seq<TileEntry>, t: Tile) -> Seq<TileEntry> {
    Seq::new(
        s.len(),
        |i: int|
            if adjacent(s[i].tile, t) {
                TileEntry { tile: s[i].tile, ground: boosted(s[i].ground), plant: s[i].plant }
            } else {
                s[i]
            },
    )
}

/// The grid with the target tile and every present neighbour drained.
pub open spec fn drain_seq(s: Seq<TileEntry>, t: Tile) -> Seq<TileEntry> {
    Seq::new(
        s.len(),
        |i: int|
            if adjacent(s[i].tile, t) {
                TileEntry { tile: s[i].tile, ground: drained(s[i].ground), plant: s[i].plant }
            } else {
                s[i]
            },
    )
}

/// The grid with the plant at `t` replaced by `p`.
pub open spec fn with_plant_at(s: Seq<TileEntry>, t: Tile, p: Plant) -> Seq<TileEntry> {
    Seq::new(
        s.len(),
        |i: int|
            if s[i].tile == t {
                TileEntry { tile: s[i].tile, ground: s[i].ground, plant: p }
            } else {
                s[i]
            },
    )
}

/// Apply the fertilize or drain area effect around `t`.
fn apply_area(grid: &mut Grid, t: Tile, boost: bool)
    requires
        old(grid).wf(),
    ensures
        final(grid).wf(),
        final(grid)@ == if boost {
            fertilize_seq(old(grid)@, t)
        } else {
            drain_seq(old(grid)@, t)
        },
{
    let ghost s0 = grid@;
    let ghost target = if boost {
        fertilize_seq(s0, t)
    } else {
        drain_seq(s0, t)
    };
    let n = grid.len();
    let mut v: Vec<TileEntry> = Vec::new();
    let mut i: usize = 0;
    while i < n
        invariant
            grid.wf(),
            grid@ == s0,
            target == if boost {
                fertilize_seq(s0, t)
            } else {
                drain_seq(s0, t)
            },
            n == s0.len(),
            i <= n,
            v@ =~= target.subrange(0, i as int),
        decreases n - i,
    {
        let e = grid.entry_at(i);
        let g2 = if adjacent_exec(e.tile, t) {
            if boost {
                boost_ground(e.ground)
            } else {
                drain_ground(e.ground)
            }
        } else {
            e.ground
        };
        v.push(TileEntry { tile: e.tile, ground: g2, plant: e.plant });
        i += 1;
        proof {
            assert(v@ =~= target.subrange(0, i as int));
        }
    }
    proof {
        assert(v@ =~= target);
        assert(tiles_unique(v@));
        assert forall|j: int| 0 <= j < v@.len() implies (#[trigger] v@[j]).wf() by {
            assert(s0[j].wf());
        }
    }
    *grid = Grid::from_entries(v);
}

/// Replace the plant stored at `t`.
fn set_plant(grid: &mut Grid, t: Tile, p: Plant)
    requires
        old(grid).wf(),
        p.wf(),
    ensures
        final(grid).wf(),
        final(grid)@ == with_plant_at(old(grid)@, t, p),
{
    let ghost s0 = grid@;
    let ghost target = with_plant_at(s0, t, p);
    let n = grid.len();
    let mut v: Vec<TileEntry> = Vec::new();
    let mut i: usize = 0;
    while i < n
        invariant
            grid.wf(),
            grid@ == s0,
            target == with_plant_at(s0, t, p),
            n == s0.len(),
            i <= n,
            v@ =~= target.subrange(0, i as int),
        decreases n - i,
    {
        let e = grid.entry_at(i);
        let p2 = if e.tile == t {
            p
        } else {
            e.plant
        };
        v.push(TileEntry { tile: e.tile, ground: e.ground, plant: p2 });
        i += 1;
        proof {
            assert(v@ =~= target.subrange(0, i as int));
        }
    }
    proof {
        assert(v@ =~= target);
        assert(tiles_unique(v@));
        assert forall|j: int| 0 <= j < v@.len() implies (#[trigger] v@[j]).wf() by {
            assert(s0[j].wf());
        }
    }
    *grid = Grid::from_entries(v);
}

// ----- the action semantics -----

/// Whether the fire power finds something to burn at `t`: a present tile,
/// not water, hosting an established (non-burning) species.
pub open spec fn fire_ok(s: Seq<TileEntry>, t: Tile) -> bool {
    match tile_at(s, t) {
        Some(e) => !(e.ground is Water) && (e.plant is Species),
        None => false,
    }
}

/// The registry position of the species hosted at `t`, if the tile hosts a
/// registered one; what the seed power captures.
pub open spec fn seed_target(s: Seq<TileEntry>, defs: Seq<PlantDefinition>, t: Tile) -> Option<
    int,
> {
    match tile_at(s, t) {
        Some(e) => match e.plant {
            Plant::Species(i) => if i < defs.len() {
                Some(i as int)
            } else {
                None
            },
            _ => None,
        },
        None => None,
    }
}

/// The registry position the plant power would put at `t`: the inventory
/// must hold a species known to the registry by name, the tile must be
/// fertile and not burning, and the species' survive threshold must be met.
pub open spec fn plant_target(
    s: Seq<TileEntry>,
    defs: Seq<PlantDefinition>,
    seedv: Option<(Seq<char>, Seq<char>, Rgba)>,
    t: Tile,
) -> Option<int> {
    match seedv {
        Some(info) => match spec_by_name(defs, info.0) {
            Some(i) => match tile_at(s, t) {
                Some(e) => match e.ground {
                    Ground::Fertile(n) => if !(e.plant is Burning) && defs[i].survive_threshold
                        <= n {
                        Some(i)
                    } else {
                        None
                    },
                    Ground::Water => None,
                },
                None => None,
            },
            None => None,
        },
        None => None,
    }
}

/// Whether the action consumes a charge: the charge exists, the target is
/// on the grid, and a fire additionally finds something to burn.
pub open spec fn consumes(
    s: Seq<TileEntry>,
    powers: AvailablePowers,
    power: Power,
    t: Tile,
) -> bool {
    &&& powers.spec_count(power) > 0
    &&& has_tile(s, t)
    &&& match power {
        Power::Fire => fire_ok(s, t),
        _ => true,
    }
}

/// The grid, ledger and seed inventory after one action. Applying a power
/// without a charge, or to a tile that is not on the grid, changes nothing;
/// a fire with nothing to burn is refunded. Otherwise the charge is
/// consumed and the effect applied, even when the effect is nothing: a seed
/// drawn from a plantless tile is wasted, and the plant power always clears
/// the inventory.
pub open spec fn use_power_spec(
    s: Seq<TileEntry>,
    defs: Seq<PlantDefinition>,
    powers: AvailablePowers,
    seedv: Option<(Seq<char>, Seq<char>, Rgba)>,
    power: Power,
    t: Tile,
) -> (Seq<TileEntry>, AvailablePowers, Option<(Seq<char>, Seq<char>, Rgba)>) {
    if !consumes(s, powers, power, t) {
        (s, powers, seedv)
    } else {
        let dec = powers.spec_with(power, (powers.spec_count(power) - 1) as usize);
        match power {
            Power::Fertilize => (fertilize_seq(s, t), dec, seedv),
            Power::Drain => (drain_seq(s, t), dec, seedv),
            Power::Fire => (with_plant_at(s, t, Plant::Burning(FIRE_DURATION)), dec, seedv),
            Power::Seed => match seed_target(s, defs, t) {
                Some(i) => (
                    s,
                    dec.spec_with(Power::Plant, clamp_adjust(dec.spec_count(Power::Plant), 1)),
                    Some((defs[i].id@, defs[i].asset@, defs[i].color)),
                ),
                None => (s, dec, seedv),
            },
            Power::Plant => match plant_target(s, defs, seedv, t) {
                Some(i) => (with_plant_at(s, t, Plant::Species(i as usize)), dec, None),
                None => (s, dec, None),
            },
        }
    }
}

/// Apply one power to one target tile, atomically against the grid, the
/// ledger and the seed inventory.
pub fn use_power(
    grid: &mut Grid,
    powers: &mut AvailablePowers,
    seed: &mut Seed,
    plants: &PlantDefinitions,
    power: Power,
    target: Tile,
)
    requires
        old(grid).wf(),
    ensures
        final(grid).wf(),
        final(grid)@ == use_power_spec(
            old(grid)@,
            plants.definitions@,
            *old(powers),
            seed_view(*old(seed)),
            power,
            target,
        ).0,
        *final(powers) == use_power_spec(
            old(grid)@,
            plants.definitions@,
            *old(powers),
            seed_view(*old(seed)),
            power,
            target,
        ).1,
        seed_view(*final(seed)) == use_power_spec(
            old(grid)@,
            plants.definitions@,
            *old(powers),
            seed_view(*old(seed)),
            power,
            target,
        ).2,
{
    let c = powers.count(power);
    if c == 0 {
        return ;
    }
    let state = grid.get(target);
    match state {
        None => {
            return ;
        },
        Some(gp) => {
            match power {
                Power::Fertilize => {
                    powers.adjust(power, -1);
                    apply_area(grid, target, true);
                },
                Power::Drain => {
                    powers.adjust(power, -1);
                    apply_area(grid, target, false);
                },
                Power::Fire => {
                    let is_water = match gp.0 {
                        Ground::Water => true,
                        _ => false,
                    };
                    let is_species = match gp.1 {
                        Plant::Species(_) => true,
                        _ => false,
                    };
                    if !is_water && is_species {
                        powers.adjust(power, -1);
                        set_plant(grid, target, Plant::Burning(FIRE_DURATION));
                    }
                },
                Power::Seed => {
                    powers.adjust(power, -1);
                    match gp.1 {
                        Plant::Species(i) => {
                            match plants.by_index(i) {
                                Some(d) => {
                                    seed.0 = Some(
                                        SeedInfo {
                                            id: d.id.clone(),
                                            asset: d.asset.clone(),
                                            color: d.color,
                                        },
                                    );
                                    powers.adjust(Power::Plant, 1);
                                },
                                None => {},
                            }
                        },
                        _ => {},
                    }
                },
                Power::Plant => {
                    powers.adjust(power, -1);
                    let planted: Option<usize> = match &seed.0 {
                        Some(info) => plants.by_name(&info.id),
                        None => None,
                    };
                    seed.0 = None;
                    match planted {
                        Some(i) => {
                            match plants.by_index(i) {
                                Some(d) => {
                                    let ok = match gp.0 {
                                        Ground::Fertile(n) => {
                                            let burning = match gp.1 {
                                                Plant::Burning(_) => true,
                                                _ => false,
                                            };
                                            !burning && d.survive_threshold <= n
                                        },
                                        Ground::Water => false,
                                    };
                                    if ok {
                                        set_plant(grid, target, Plant::Species(i));
                                    }
                                },
                                None => {},
                            }
                        },
                        None => {},
                    }
                },
            }
        },
    }
}

/// Charge conservation: an action that goes through consumes exactly one
/// charge of its power, and a failed one (no charge, no target tile, or a
/// fire with nothing to burn) leaves the ledger untouched. Counts never go
/// negative, and no other power's count changes — except that a seed
/// captured from an established plant grants one charge to the plant
/// power.
pub proof fn lemma_charge_conservation(
    s: Seq<TileEntry>,
    defs: Seq<PlantDefinition>,
    powers: AvailablePowers,
    seedv: Option<(Seq<char>, Seq<char>, Rgba)>,
    power: Power,
    t: Tile,
)
    ensures
        ({
            let after = use_power_spec(s, defs, powers, seedv, power, t).1;
            &&& !consumes(s, powers, power, t) ==> after == powers
            &&& consumes(s, powers, power, t) ==> after.spec_count(power) + 1
                == powers.spec_count(power)
            &&& forall|q: Power|
                q != power && q != Power::Plant ==> #[trigger] after.spec_count(q)
                    == powers.spec_count(q)
            &&& power != Power::Seed && power != Power::Plant ==> after.spec_count(Power::Plant)
                == powers.spec_count(Power::Plant)
            &&& power == Power::Seed && consumes(s, powers, power, t) && seed_target(s, defs, t)
                is Some ==> after.spec_count(Power::Plant) == clamp_adjust(
                powers.spec_count(Power::Plant),
                1,
            )
            &&& power == Power::Seed && consumes(s, powers, power, t) && seed_target(s, defs, t)
                is None ==> after.spec_count(Power::Plant) == powers.spec_count(Power::Plant)
        }),
{
}

/// An action neither adds nor removes tiles, and never touches a water
/// tile's ground.
pub proof fn lemma_power_preserves_water(
    s: Seq<TileEntry>,
    defs: Seq<PlantDefinition>,
    powers: AvailablePowers,
    seedv: Option<(Seq<char>, Seq<char>, Rgba)>,
    power: Power,
    t: Tile,
    i: int,
)
    requires
        0 <= i < s.len(),
    ensures
        ({
            let after = use_power_spec(s, defs, powers, seedv, power, t).0;
            &&& after.len() == s.len()
            &&& after[i].tile == s[i].tile
            &&& (s[i].ground is Water ==> after[i].ground is Water)
        }),
{
}

/// The state after draining the first `k` queued actions in arrival order.
pub open spec fn use_powers_spec(
    s: Seq<TileEntry>,
    defs: Seq<PlantDefinition>,
    powers: AvailablePowers,
    seedv: Option<(Seq<char>, Seq<char>, Rgba)>,
    actions: Seq<UsePower>,
    k: int,
) -> (Seq<TileEntry>, AvailablePowers, Option<(Seq<char>, Seq<char>, Rgba)>)
    decreases k,
{
    if k <= 0 {
        (s, powers, seedv)
    } else {
        let prev = use_powers_spec(s, defs, powers, seedv, actions, k - 1);
        use_power_spec(prev.0, defs, prev.1, prev.2, actions[k - 1].0, actions[k - 1].1)
    }
}

/// Drain a queue of actions in arrival order, each applied atomically.
pub fn use_powers(
    grid: &mut Grid,
    powers: &mut AvailablePowers,
    seed: &mut Seed,
    plants: &PlantDefinitions,
    actions: &Vec<UsePower>,
)
    requires
        old(grid).wf(),
    ensures
        final(grid).wf(),
        final(grid)@ == use_powers_spec(
            old(grid)@,
            plants.definitions@,
            *old(powers),
            seed_view(*old(seed)),
            actions@,
            actions@.len() as int,
        ).0,
        *final(powers) == use_powers_spec(
            old(grid)@,
            plants.definitions@,
            *old(powers),
            seed_view(*old(seed)),
            actions@,
            actions@.len() as int,
        ).1,
        seed_view(*final(seed)) == use_powers_spec(
            old(grid)@,
            plants.definitions@,
            *old(powers),
            seed_view(*old(seed)),
            actions@,
            actions@.len() as int,
        ).2,
{
    let ghost s0 = grid@;
    let ghost p0 = *powers;
    let ghost v0 = seed_view(*seed);
    let n = actions.len();
    let mut i: usize = 0;
    while i < n
        invariant
            grid.wf(),
            n == actions@.len(),
            i <= n,
            grid@ == use_powers_spec(s0, plants.definitions@, p0, v0, actions@, i as int).0,
            *powers == use_powers_spec(s0, plants.definitions@, p0, v0, actions@, i as int).1,
            seed_view(*seed) == use_powers_spec(s0, plants.definitions@, p0, v0, actions@, i as int).2,
        decreases n - i,
    {
        let a = actions[i];
        use_power(grid, powers, seed, plants, a.0, a.1);
        i += 1;
    }
}

} // verus!
