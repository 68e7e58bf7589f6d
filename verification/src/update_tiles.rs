//! One simulation tick over the grid: a nutrient diffusion pass over every
//! fertile tile, then a growth pass that decides each tile's next plant from
//! the diffused grid and the registry's priority order.
//!
//! Both passes read only the snapshot they were given and write into a fresh
//! grid, so the result is a pure, order-independent function of the old grid.

use vstd::prelude::*;

use crate::grid::{
    entries_wf, grid_wf, has_tile, index_of, tile_at, tiles_unique, Grid, TileEntry,
};
use crate::plants::{prio_ge, prio_sorted, PlantDefinition, PlantDefinitions};
use crate::tile::{Ground, Plant, Tile, MAX_NUTRIENT, WATER_RUNOFF};

verus! {

// ----- the neighbourhood -----

/// The x offset of the `k`-th of the eight Chebyshev-distance-1 neighbours.
pub open spec fn offset_dx(k: int) -> int {
    if k == 0 || k == 3 || k == 5 {
        -1
    } else if k == 1 || k == 6 {
        0
    } else {
        1
    }
}

/// The y offset of the `k`-th of the eight Chebyshev-distance-1 neighbours.
pub open spec fn offset_dy(k: int) -> int {
    if k <= 2 {
        -1
    } else if k <= 4 {
        0
    } else {
        1
    }
}

fn offset_at(k: usize) -> (r: (i32, i32))
    requires
        k < 8,
    ensures
        r.0 as int == offset_dx(k as int),
        r.1 as int == offset_dy(k as int),
{
    if k == 0 {
        (-1, -1)
    } else if k == 1 {
        (0, -1)
    } else if k == 2 {
        (1, -1)
    } else if k == 3 {
        (-1, 0)
    } else if k == 4 {
        (1, 0)
    } else if k == 5 {
        (-1, 1)
    } else if k == 6 {
        (0, 1)
    } else {
        (1, 1)
    }
}

/// The `k`-th neighbouring coordinate, where it exists within the
/// coordinate type's range.
pub open spec fn neighbor_tile(t: Tile, k: int) -> Option<Tile> {
    let nx = t.0 + offset_dx(k);
    let ny = t.1 + offset_dy(k);
    if i32::MIN <= nx <= i32::MAX && i32::MIN <= ny <= i32::MAX {
        Some(Tile(nx as i32, ny as i32))
    } else {
        None
    }
}

/// The entry stored for the `k`-th neighbour of `t`, if present.
pub open spec fn neighbor_entry(s: Seq<TileEntry>, t: Tile, k: int) -> Option<TileEntry> {
    match neighbor_tile(t, k) {
        Some(nt) => tile_at(s, nt),
        None => None,
    }
}

/// Fetch the `k`-th present neighbour of `t`.
fn neighbor_of(grid: &Grid, t: Tile, k: usize) -> (r: Option<TileEntry>)
    requires
        grid.wf(),
        k < 8,
    ensures
        r == neighbor_entry(grid@, t, k as int),
{
    let off = offset_at(k);
    let nx: i64 = t.0 as i64 + off.0 as i64;
    let ny: i64 = t.1 as i64 + off.1 as i64;
    if i32::MIN as i64 <= nx && nx <= i32::MAX as i64 && i32::MIN as i64 <= ny && ny
        <= i32::MAX as i64 {
        let nt = Tile(nx as i32, ny as i32);
        proof {
            if has_tile(grid@, nt) {
                let i = index_of(grid@, nt);
                assert(0 <= i < grid@.len() && grid@[i].tile == nt);
            }
        }
        match grid.get(nt) {
            Some(gp) => Some(TileEntry { tile: nt, ground: gp.0, plant: gp.1 }),
            None => None,
        }
    } else {
        None
    }
}

/// The states of the present neighbours among the first `k` neighbour
/// slots of `t`, in the fixed offset order.
pub open spec fn neighbor_list(s: Seq<TileEntry>, t: Tile, k: int) -> Seq<(Ground, Plant)>
    decreases k,
{
    if k <= 0 {
        Seq::empty()
    } else {
        neighbor_list(s, t, k - 1) + match neighbor_entry(s, t, k - 1) {
            Some(e) => seq![(e.ground, e.plant)],
            None => Seq::<(Ground, Plant)>::empty(),
        }
    }
}

/// The up to eight present neighbours of `t`, in the fixed offset order. A
/// tile with no entry is simply absent: it does not count as water or as
/// fertile ground.
pub fn neighbors(grid: &Grid, t: Tile) -> (r: Vec<(Ground, Plant)>)
    requires
        grid.wf(),
    ensures
        r@ == neighbor_list(grid@, t, 8),
{
    let mut r: Vec<(Ground, Plant)> = Vec::new();
    let mut k: usize = 0;
    while k < 8
        invariant
            grid.wf(),
            k <= 8,
            r@ =~= neighbor_list(grid@, t, k as int),
        decreases 8 - k,
    {
        match neighbor_of(grid, t, k) {
            Some(e) => {
                r.push((e.ground, e.plant));
            },
            None => {},
        }
        k += 1;
        proof {
            assert(r@ =~= neighbor_list(grid@, t, k as int));
        }
    }
    r
}

/// A present neighbour entry is well formed whenever the grid is.
proof fn lemma_neighbor_entry_wf(s: Seq<TileEntry>, t: Tile, k: int)
    requires
        entries_wf(s),
    ensures
        match neighbor_entry(s, t, k) {
            Some(e) => e.wf(),
            None => true,
        },
{
    match neighbor_tile(t, k) {
        Some(nt) => {
            if has_tile(s, nt) {
                let i = index_of(s, nt);
                assert(0 <= i < s.len() && s[i].tile == nt);
                assert(s[i].wf());
            }
        },
        None => {},
    }
}

// ----- diffusion -----

/// `a - b`, saturating at zero.
pub open spec fn sat_sub(a: u8, b: u8) -> int {
    if a >= b {
        a - b
    } else {
        0
    }
}

/// The nutrient a plant consumes on its own tile. An unregistered species
/// reference has no definition to consult and costs nothing.
pub open spec fn spec_local_cost(defs: Seq<PlantDefinition>, p: Plant) -> u8 {
    match p {
        Plant::Species(i) => if i < defs.len() {
            defs[i as int].local_cost
        } else {
            0
        },
        _ => 0,
    }
}

/// The nutrient a plant drains from a neighbouring tile.
pub open spec fn spec_neighbour_cost(defs: Seq<PlantDefinition>, p: Plant) -> u8 {
    match p {
        Plant::Species(i) => if i < defs.len() {
            defs[i as int].neighbour_cost
        } else {
            0
        },
        _ => 0,
    }
}

/// What a present neighbour contributes to the diffusion average: its
/// nutrient less its plant's neighbour cost, except that water contributes
/// the fixed runoff value.
pub open spec fn neighbour_available(defs: Seq<PlantDefinition>, e: TileEntry) -> int {
    match e.ground {
        Ground::Water => WATER_RUNOFF as int,
        Ground::Fertile(n) => sat_sub(n, spec_neighbour_cost(defs, e.plant)),
    }
}

/// The summed contribution of the first `k` neighbour slots of `t`.
pub open spec fn neighbour_sum(s: Seq<TileEntry>, defs: Seq<PlantDefinition>, t: Tile, k: int) -> int
    decreases k,
{
    if k <= 0 {
        0
    } else {
        neighbour_sum(s, defs, t, k - 1) + match neighbor_entry(s, t, k - 1) {
            Some(e) => neighbour_available(defs, e),
            None => 0,
        }
    }
}

/// How many of the first `k` neighbour slots of `t` are present.
pub open spec fn neighbour_count(s: Seq<TileEntry>, t: Tile, k: int) -> int
    decreases k,
{
    if k <= 0 {
        0
    } else {
        neighbour_count(s, t, k - 1) + if neighbor_entry(s, t, k - 1) is Some {
            1int
        } else {
            0int
        }
    }
}

proof fn lemma_neighbour_bounds(s: Seq<TileEntry>, defs: Seq<PlantDefinition>, t: Tile, k: int)
    requires
        entries_wf(s),
        0 <= k <= 8,
    ensures
        0 <= neighbour_sum(s, defs, t, k) <= k * (WATER_RUNOFF as int),
        0 <= neighbour_count(s, t, k) <= k,
    decreases k,
{
    if k > 0 {
        lemma_neighbour_bounds(s, defs, t, k - 1);
        lemma_neighbor_entry_wf(s, t, k - 1);
    }
}

/// The post-diffusion ground of the entry `e` within the snapshot `s`:
/// water passes through unchanged; fertile ground becomes the clamped,
/// truncating average of the locally available nutrient and each present
/// neighbour's contribution.
pub open spec fn diffused_ground(
    s: Seq<TileEntry>,
    defs: Seq<PlantDefinition>,
    e: TileEntry,
) -> Ground {
    match e.ground {
        Ground::Water => Ground::Water,
        Ground::Fertile(n) => {
            let local = sat_sub(n, spec_local_cost(defs, e.plant));
            let total = local + neighbour_sum(s, defs, e.tile, 8);
            let avg = total / (1 + neighbour_count(s, e.tile, 8));
            Ground::Fertile(
                if avg > MAX_NUTRIENT as int {
                    MAX_NUTRIENT
                } else {
                    avg as u8
                },
            )
        },
    }
}

pub proof fn lemma_diffused_ground_wf(s: Seq<TileEntry>, defs: Seq<PlantDefinition>, e: TileEntry)
    requires
        entries_wf(s),
        e.wf(),
    ensures
        diffused_ground(s, defs, e).wf(),
{
    match e.ground {
        Ground::Water => {},
        Ground::Fertile(n) => {
            lemma_neighbour_bounds(s, defs, e.tile, 8);
            let local = sat_sub(n, spec_local_cost(defs, e.plant));
            let total = local + neighbour_sum(s, defs, e.tile, 8);
            let divisor: int = 1 + neighbour_count(s, e.tile, 8);
            vstd::arithmetic::div_mod::lemma_div_pos_is_pos(total, divisor);
        },
    }
}

/// What a present neighbour contributes, executably.
fn available_of(plants: &PlantDefinitions, e: TileEntry) -> (c: u8)
    requires
        e.wf(),
    ensures
        c as int == neighbour_available(plants.definitions@, e),
        c <= WATER_RUNOFF,
{
    match e.ground {
        Ground::Water => WATER_RUNOFF,
        Ground::Fertile(n) => {
            let nc = neighbour_cost_of(plants, e.plant);
            if n >= nc {
                n - nc
            } else {
                0
            }
        },
    }
}

fn local_cost_of(plants: &PlantDefinitions, p: Plant) -> (c: u8)
    ensures
        c == spec_local_cost(plants.definitions@, p),
{
    match p {
        Plant::Species(i) => match plants.by_index(i) {
            Some(d) => d.local_cost,
            None => 0,
        },
        _ => 0,
    }
}

fn neighbour_cost_of(plants: &PlantDefinitions, p: Plant) -> (c: u8)
    ensures
        c == spec_neighbour_cost(plants.definitions@, p),
{
    match p {
        Plant::Species(i) => match plants.by_index(i) {
            Some(d) => d.neighbour_cost,
            None => 0,
        },
        _ => 0,
    }
}

/// The diffusion pass for one tile.
pub fn diffuse_tile(grid: &Grid, plants: &PlantDefinitions, e: TileEntry) -> (g2: Ground)
    requires
        grid.wf(),
        e.wf(),
    ensures
        g2 == diffused_ground(grid@, plants.definitions@, e),
        g2.wf(),
{
    match e.ground {
        Ground::Water => Ground::Water,
        Ground::Fertile(n) => {
            let lc = local_cost_of(plants, e.plant);
            let local: u32 = if n >= lc {
                (n - lc) as u32
            } else {
                0
            };
            let mut sum: u32 = local;
            let mut cnt: u32 = 1;
            let mut k: usize = 0;
            while k < 8
                invariant
                    grid.wf(),
                    e.wf(),
                    e.ground == Ground::Fertile(n),
                    k <= 8,
                    local as int == sat_sub(n, spec_local_cost(plants.definitions@, e.plant)),
                    sum as int == local as int + neighbour_sum(
                        grid@,
                        plants.definitions@,
                        e.tile,
                        k as int,
                    ),
                    cnt as int == 1 + neighbour_count(grid@, e.tile, k as int),
                    sum <= 8 + 16 * k,
                    1 <= cnt <= 1 + k,
                decreases 8 - k,
            {
                match neighbor_of(grid, e.tile, k) {
                    Some(ne) => {
                        proof {
                            lemma_neighbor_entry_wf(grid@, e.tile, k as int);
                        }
                        let c = available_of(plants, ne);
                        sum = sum + c as u32;
                        cnt = cnt + 1;
                    },
                    None => {},
                }
                k += 1;
            }
            let avg: u32 = sum / cnt;
            if avg > MAX_NUTRIENT as u32 {
                Ground::Fertile(MAX_NUTRIENT)
            } else {
                Ground::Fertile(avg as u8)
            }
        },
    }
}

// ----- growth -----

/// Whether the `k`-th neighbour of `t` hosts an established plant of the
/// species with index `d`.
pub open spec fn species_neighbour_at(s: Seq<TileEntry>, t: Tile, k: int, d: usize) -> bool {
    match neighbor_entry(s, t, k) {
        Some(e) => e.plant == Plant::Species(d),
        None => false,
    }
}

/// Whether any present neighbour of `t` hosts the species with index `d`.
pub open spec fn has_species_neighbour(s: Seq<TileEntry>, t: Tile, d: usize) -> bool {
    exists|k: int| 0 <= k < 8 && #[trigger] species_neighbour_at(s, t, k, d)
}

/// Whether the definition at position `d` may claim the tile `t` whose
/// post-diffusion nutrient is `nut`: its spread threshold is met, and a
/// seeded species additionally needs an established neighbour of its own
/// kind.
pub open spec fn spread_ok(
    s: Seq<TileEntry>,
    defs: Seq<PlantDefinition>,
    t: Tile,
    nut: u8,
    d: int,
) -> bool {
    &&& defs[d].spread_threshold <= nut
    &&& (!defs[d].seeded || has_species_neighbour(s, t, d as usize))
}

/// Whether the definition at position `d` wins the scan for tile `t`:
/// the incumbent species itself needs only its survive threshold, any other
/// definition needs its spread condition.
pub open spec fn qualifies(
    s: Seq<TileEntry>,
    defs: Seq<PlantDefinition>,
    t: Tile,
    occupant: Option<usize>,
    nut: u8,
    d: int,
) -> bool {
    match occupant {
        Some(sp) => if d == sp as int {
            defs[d].survive_threshold <= nut
        } else {
            spread_ok(s, defs, t, nut, d)
        },
        None => spread_ok(s, defs, t, nut, d),
    }
}

/// The first definition at or after position `d` that qualifies for `t`.
pub open spec fn scan_from(
    s: Seq<TileEntry>,
    defs: Seq<PlantDefinition>,
    t: Tile,
    occupant: Option<usize>,
    nut: u8,
    d: int,
) -> Option<usize>
    decreases defs.len() - d,
{
    if d < 0 || d >= defs.len() {
        None
    } else if qualifies(s, defs, t, occupant, nut, d) {
        Some(d as usize)
    } else {
        scan_from(s, defs, t, occupant, nut, d + 1)
    }
}

/// The next plant of the entry `e`, read against the post-diffusion
/// snapshot `s`: a burning tile only counts down; water forces emptiness;
/// otherwise the first qualifying definition in priority order claims the
/// tile, and a tile nothing qualifies for is empty.
pub open spec fn next_plant(s: Seq<TileEntry>, defs: Seq<PlantDefinition>, e: TileEntry) -> Plant {
    match e.plant {
        Plant::Burning(n) => if n > 1 {
            Plant::Burning((n - 1) as u8)
        } else {
            Plant::Empty
        },
        _ => match e.ground {
            Ground::Water => Plant::Empty,
            Ground::Fertile(nut) => {
                let occupant = match e.plant {
                    Plant::Species(i) => Some(i),
                    _ => None::<usize>,
                };
                match scan_from(s, defs, e.tile, occupant, nut, 0) {
                    Some(d) => Plant::Species(d),
                    None => Plant::Empty,
                }
            },
        },
    }
}

pub proof fn lemma_next_plant_wf(s: Seq<TileEntry>, defs: Seq<PlantDefinition>, e: TileEntry)
    ensures
        next_plant(s, defs, e).wf(),
{
}

fn has_species_neighbour_exec(mid: &Grid, t: Tile, d: usize) -> (r: bool)
    requires
        mid.wf(),
    ensures
        r == has_species_neighbour(mid@, t, d),
{
    let mut k: usize = 0;
    while k < 8
        invariant
            mid.wf(),
            k <= 8,
            forall|j: int| 0 <= j < k ==> !(#[trigger] species_neighbour_at(mid@, t, j, d)),
        decreases 8 - k,
    {
        match neighbor_of(mid, t, k) {
            Some(ne) => {
                match ne.plant {
                    Plant::Species(i) => {
                        if i == d {
                            proof {
                                assert(species_neighbour_at(mid@, t, k as int, d));
                            }
                            return true;
                        }
                    },
                    _ => {},
                }
            },
            None => {},
        }
        k += 1;
    }
    false
}

fn qualifies_exec(
    mid: &Grid,
    plants: &PlantDefinitions,
    t: Tile,
    occupant: Option<usize>,
    nut: u8,
    d: usize,
) -> (r: bool)
    requires
        mid.wf(),
        d < plants.definitions@.len(),
    ensures
        r == qualifies(mid@, plants.definitions@, t, occupant, nut, d as int),
{
    let is_occupant = match occupant {
        Some(sp) => sp == d,
        None => false,
    };
    let def = &plants.definitions[d];
    if is_occupant {
        def.survive_threshold <= nut
    } else if def.spread_threshold <= nut {
        if def.seeded {
            has_species_neighbour_exec(mid, t, d)
        } else {
            true
        }
    } else {
        false
    }
}

/// The growth pass for one tile, read against the post-diffusion grid.
pub fn grow_tile(mid: &Grid, plants: &PlantDefinitions, e: TileEntry) -> (p2: Plant)
    requires
        mid.wf(),
    ensures
        p2 == next_plant(mid@, plants.definitions@, e),
        p2.wf(),
{
    match e.plant {
        Plant::Burning(n) => {
            if n > 1 {
                Plant::Burning(n - 1)
            } else {
                Plant::Empty
            }
        },
        _ => {
            match e.ground {
                Ground::Water => Plant::Empty,
                Ground::Fertile(nut) => {
                    let occupant: Option<usize> = match e.plant {
                        Plant::Species(i) => Some(i),
                        _ => None,
                    };
                    let n_defs = plants.len();
                    let mut d: usize = 0;
                    while d < n_defs
                        invariant
                            mid.wf(),
                            n_defs == plants.definitions@.len(),
                            d <= n_defs,
                            !(e.plant is Burning),
                            e.ground == Ground::Fertile(nut),
                            occupant == (match e.plant {
                                Plant::Species(i) => Some(i),
                                _ => None::<usize>,
                            }),
                            scan_from(mid@, plants.definitions@, e.tile, occupant, nut, 0)
                                == scan_from(
                                mid@,
                                plants.definitions@,
                                e.tile,
                                occupant,
                                nut,
                                d as int,
                            ),
                        decreases n_defs - d,
                    {
                        if qualifies_exec(mid, plants, e.tile, occupant, nut, d) {
                            proof {
                                assert(scan_from(
                                    mid@,
                                    plants.definitions@,
                                    e.tile,
                                    occupant,
                                    nut,
                                    d as int,
                                ) == Some(d));
                            }
                            return Plant::Species(d);
                        }
                        proof {
                            assert(scan_from(
                                mid@,
                                plants.definitions@,
                                e.tile,
                                occupant,
                                nut,
                                d as int,
                            ) == scan_from(
                                mid@,
                                plants.definitions@,
                                e.tile,
                                occupant,
                                nut,
                                d as int + 1,
                            ));
                        }
                        d += 1;
                    }
                    Plant::Empty
                },
            }
        },
    }
}

// ----- the full tick -----

/// The whole grid after the diffusion pass: every fertile ground averaged,
/// every tile and plant untouched.
pub open spec fn diffused_seq(s: Seq<TileEntry>, defs: Seq<PlantDefinition>) -> Seq<TileEntry> {
    Seq::new(
        s.len(),
        |i: int|
            TileEntry {
                tile: s[i].tile,
                ground: diffused_ground(s, defs, s[i]),
                plant: s[i].plant,
            },
    )
}

/// The whole grid after one tick: diffusion, then growth read against the
/// diffused grid.
pub open spec fn tick_seq(s: Seq<TileEntry>, defs: Seq<PlantDefinition>) -> Seq<TileEntry> {
    let mid = diffused_seq(s, defs);
    Seq::new(
        mid.len(),
        |i: int|
            TileEntry {
                tile: mid[i].tile,
                ground: mid[i].ground,
                plant: next_plant(mid, defs, mid[i]),
            },
    )
}

/// Run one simulation tick: produce the next grid from a read-only
/// snapshot of the current one. Both passes of the tick read `grid` (and
/// the intermediate diffused grid) only; the result is swapped in whole.
pub fn update_tiles(grid: &Grid, plants: &PlantDefinitions) -> (r: Grid)
    requires
        grid.wf(),
    ensures
        r@ == tick_seq(grid@, plants.definitions@),
        r.wf(),
{
    let ghost s0 = grid@;
    let ghost defs = plants.definitions@;
    let n = grid.len();

    let mut mid_entries: Vec<TileEntry> = Vec::new();
    let mut i: usize = 0;
    while i < n
        invariant
            grid.wf(),
            n == grid@.len(),
            i <= n,
            mid_entries@ =~= diffused_seq(grid@, plants.definitions@).subrange(0, i as int),
        decreases n - i,
    {
        let e = grid.entry_at(i);
        let g2 = diffuse_tile(grid, plants, e);
        mid_entries.push(TileEntry { tile: e.tile, ground: g2, plant: e.plant });
        i += 1;
        proof {
            assert(mid_entries@ =~= diffused_seq(grid@, plants.definitions@).subrange(
                0,
                i as int,
            ));
        }
    }
    proof {
        assert(mid_entries@ =~= diffused_seq(s0, defs));
        assert(tiles_unique(mid_entries@));
        assert forall|j: int| 0 <= j < mid_entries@.len() implies (#[trigger] mid_entries@[j]).wf() by {
            lemma_diffused_ground_wf(s0, defs, s0[j]);
        }
    }
    let mid = Grid::from_entries(mid_entries);

    let mut out_entries: Vec<TileEntry> = Vec::new();
    let mut i2: usize = 0;
    while i2 < n
        invariant
            mid.wf(),
            mid@ == diffused_seq(s0, defs),
            defs == plants.definitions@,
            n == mid@.len(),
            i2 <= n,
            out_entries@ =~= tick_seq(s0, defs).subrange(0, i2 as int),
        decreases n - i2,
    {
        let e = mid.entry_at(i2);
        let p2 = grow_tile(&mid, plants, e);
        out_entries.push(TileEntry { tile: e.tile, ground: e.ground, plant: p2 });
        i2 += 1;
        proof {
            assert(out_entries@ =~= tick_seq(s0, defs).subrange(0, i2 as int));
        }
    }
    proof {
        assert(out_entries@ =~= tick_seq(s0, defs));
        assert(tiles_unique(out_entries@));
        assert forall|j: int| 0 <= j < out_entries@.len() implies (#[trigger] out_entries@[j]).wf()
            by {
            assert(mid@[j].wf());
            lemma_next_plant_wf(mid@, defs, mid@[j]);
        }
    }
    Grid::from_entries(out_entries)
}

// ----- laws of the tick -----

/// The grid after `n` ticks.
pub open spec fn tick_n(s: Seq<TileEntry>, defs: Seq<PlantDefinition>, n: nat) -> Seq<TileEntry>
    decreases n,
{
    if n == 0 {
        s
    } else {
        tick_seq(tick_n(s, defs, (n - 1) as nat), defs)
    }
}

/// Run `n` simulation ticks.
pub fn run_ticks(grid: &Grid, plants: &PlantDefinitions, n: usize) -> (r: Grid)
    requires
        grid.wf(),
    ensures
        r@ == tick_n(grid@, plants.definitions@, n as nat),
        r.wf(),
{
    let mut cur = grid.snapshot();
    let mut i: usize = 0;
    while i < n
        invariant
            cur.wf(),
            i <= n,
            cur@ == tick_n(grid@, plants.definitions@, i as nat),
        decreases n - i,
    {
        cur = update_tiles(&cur, plants);
        i += 1;
    }
    cur
}

/// One tick keeps the grid well formed and carries every tile over in
/// place.
pub proof fn lemma_tick_wf(s: Seq<TileEntry>, defs: Seq<PlantDefinition>)
    requires
        grid_wf(s),
    ensures
        grid_wf(tick_seq(s, defs)),
        tick_seq(s, defs).len() == s.len(),
        forall|i: int| 0 <= i < s.len() ==> (#[trigger] tick_seq(s, defs)[i]).tile == s[i].tile,
{
    let mid = diffused_seq(s, defs);
    let out = tick_seq(s, defs);
    assert forall|i: int| 0 <= i < out.len() implies (#[trigger] out[i]).wf() by {
        assert(s[i].wf());
        lemma_diffused_ground_wf(s, defs, s[i]);
        lemma_next_plant_wf(mid, defs, mid[i]);
        assert(out[i].ground == mid[i].ground);
    }
    assert(tiles_unique(out));
}

/// Nutrient bounds, and validity as a whole: for any number of ticks the
/// grid stays well formed — every fertile tile's nutrient lies in
/// `[0, MAX_NUTRIENT]` — with the same tiles in the same places.
pub proof fn lemma_tick_preserves_bounds(s: Seq<TileEntry>, defs: Seq<PlantDefinition>, n: nat)
    requires
        grid_wf(s),
    ensures
        grid_wf(tick_n(s, defs, n)),
        tick_n(s, defs, n).len() == s.len(),
        forall|i: int| 0 <= i < s.len() ==> (#[trigger] tick_n(s, defs, n)[i]).tile == s[i].tile,
    decreases n,
{
    if n > 0 {
        lemma_tick_preserves_bounds(s, defs, (n - 1) as nat);
        lemma_tick_wf(tick_n(s, defs, (n - 1) as nat), defs);
    }
}

/// Water invariant, first half: a water tile's ground is still water after
/// any number of ticks — diffusion passes water through unchanged.
pub proof fn lemma_water_ground_preserved(
    s: Seq<TileEntry>,
    defs: Seq<PlantDefinition>,
    n: nat,
    i: int,
)
    requires
        grid_wf(s),
        0 <= i < s.len(),
        s[i].ground is Water,
    ensures
        tick_n(s, defs, n)[i].ground is Water,
    decreases n,
{
    if n > 0 {
        lemma_water_ground_preserved(s, defs, (n - 1) as nat, i);
        lemma_tick_preserves_bounds(s, defs, (n - 1) as nat);
    }
}

/// Water invariant, second half: after a growth pass a water tile hosts
/// nothing, provided it was not burning — a fire counts itself down first
/// and only then leaves the tile empty.
pub proof fn lemma_water_plant_empty(s: Seq<TileEntry>, defs: Seq<PlantDefinition>, i: int)
    requires
        grid_wf(s),
        0 <= i < s.len(),
        s[i].ground is Water,
        !(s[i].plant is Burning),
    ensures
        tick_seq(s, defs)[i].plant == Plant::Empty,
{
}

/// The one exception to the water invariant is a fire placed on water by
/// the initial grid: it counts itself down first. Once it has burnt out —
/// after at most the fire's own tick count — the water tile is empty and
/// stays empty forever.
pub proof fn lemma_water_clears_after_burnout(
    s: Seq<TileEntry>,
    defs: Seq<PlantDefinition>,
    i: int,
    m: u8,
    k: nat,
)
    requires
        grid_wf(s),
        0 <= i < s.len(),
        s[i].ground is Water,
        s[i].plant == Plant::Burning(m),
        1 <= m,
        k >= m,
    ensures
        tick_n(s, defs, k)[i].plant == Plant::Empty,
    decreases k,
{
    lemma_tick_preserves_bounds(s, defs, (k - 1) as nat);
    lemma_water_ground_preserved(s, defs, (k - 1) as nat, i);
    let t1 = tick_n(s, defs, (k - 1) as nat);
    assert(tick_n(s, defs, k) == tick_seq(t1, defs));
    if k == m {
        lemma_fire_lifecycle(s, defs, i, m, (k - 1) as nat);
        assert(t1[i].plant == Plant::Burning(1u8));
    } else {
        lemma_water_clears_after_burnout(s, defs, i, m, (k - 1) as nat);
        assert(t1[i].plant == Plant::Empty);
        lemma_water_plant_empty(t1, defs, i);
    }
}

/// Fixed point: a grid that one tick leaves unchanged is unchanged by any
/// number of further ticks — at equilibrium the simulation is idempotent.
pub proof fn lemma_fixed_point(s: Seq<TileEntry>, defs: Seq<PlantDefinition>, n: nat)
    requires
        tick_seq(s, defs) == s,
    ensures
        tick_n(s, defs, n) == s,
    decreases n,
{
    if n > 0 {
        lemma_fixed_point(s, defs, (n - 1) as nat);
    }
}

/// Fire lifecycle: a tile burning with `m` ticks left burns down by exactly
/// one per tick, and is empty after exactly `m` further ticks — never
/// earlier.
pub proof fn lemma_fire_lifecycle(
    s: Seq<TileEntry>,
    defs: Seq<PlantDefinition>,
    i: int,
    m: u8,
    k: nat,
)
    requires
        grid_wf(s),
        0 <= i < s.len(),
        s[i].plant == Plant::Burning(m),
        1 <= m,
        k <= m,
    ensures
        k < m ==> tick_n(s, defs, k)[i].plant == Plant::Burning((m - k) as u8),
        k == m ==> tick_n(s, defs, k)[i].plant == Plant::Empty,
    decreases k,
{
    if k > 0 {
        lemma_fire_lifecycle(s, defs, i, m, (k - 1) as nat);
        lemma_tick_preserves_bounds(s, defs, (k - 1) as nat);
        let t1 = tick_n(s, defs, (k - 1) as nat);
        assert(tick_n(s, defs, k) == tick_seq(t1, defs));
        assert(t1[i].plant == Plant::Burning((m - (k - 1)) as u8));
        assert(diffused_seq(t1, defs)[i].plant == t1[i].plant);
    }
}

/// What the scan settles on is the first qualifying definition: everything
/// before it was rejected, and nothing qualifies at all when it finds none.
pub proof fn lemma_scan_first(
    s: Seq<TileEntry>,
    defs: Seq<PlantDefinition>,
    t: Tile,
    occupant: Option<usize>,
    nut: u8,
    from: int,
)
    requires
        0 <= from,
        defs.len() <= usize::MAX,
    ensures
        match scan_from(s, defs, t, occupant, nut, from) {
            Some(c) => from <= c < defs.len() && qualifies(s, defs, t, occupant, nut, c as int)
                && forall|d: int|
                from <= d < c ==> !(#[trigger] qualifies(s, defs, t, occupant, nut, d)),
            None => forall|d: int|
                from <= d < defs.len() ==> !(#[trigger] qualifies(s, defs, t, occupant, nut, d)),
        },
    decreases defs.len() - from,
{
    if from >= defs.len() {
        assert(scan_from(s, defs, t, occupant, nut, from) is None);
    } else if qualifies(s, defs, t, occupant, nut, from) {
        assert(from <= usize::MAX);
        assert(scan_from(s, defs, t, occupant, nut, from) == Some(from as usize));
        assert(from as usize as int == from);
    } else {
        lemma_scan_first(s, defs, t, occupant, nut, from + 1);
        assert(scan_from(s, defs, t, occupant, nut, from) == scan_from(
            s,
            defs,
            t,
            occupant,
            nut,
            from + 1,
        ));
        match scan_from(s, defs, t, occupant, nut, from + 1) {
            Some(c) => {
                assert forall|d: int| from <= d < c implies !(#[trigger] qualifies(
                    s,
                    defs,
                    t,
                    occupant,
                    nut,
                    d,
                )) by {
                    if d == from {
                    }
                }
            },
            None => {
                assert forall|d: int| from <= d < defs.len() implies !(#[trigger] qualifies(
                    s,
                    defs,
                    t,
                    occupant,
                    nut,
                    d,
                )) by {
                    if d == from {
                    }
                }
            },
        }
    }
}

/// Priority determinism: when two species could both claim an empty tile,
/// the scan never picks one that another eligible species strictly
/// out-aggresses — with a priority-sorted registry the winner's
/// aggressiveness is at least that of every eligible candidate, whatever
/// order the raw definitions arrived in.
pub proof fn lemma_priority_determinism(
    s: Seq<TileEntry>,
    defs: Seq<PlantDefinition>,
    t: Tile,
    nut: u8,
    i: int,
    j: int,
)
    requires
        prio_sorted(defs),
        defs.len() <= usize::MAX,
        0 <= i < defs.len(),
        0 <= j < defs.len(),
        spread_ok(s, defs, t, nut, i),
        spread_ok(s, defs, t, nut, j),
        defs[i].aggressiveness > defs[j].aggressiveness,
    ensures
        scan_from(s, defs, t, None, nut, 0) matches Some(c) && c as int != j && defs[
            c as int
        ].aggressiveness >= defs[i].aggressiveness,
        next_plant(
            s,
            defs,
            (TileEntry { tile: t, ground: Ground::Fertile(nut), plant: Plant::Empty }),
        ) matches Plant::Species(c) && c as int != j && defs[c as int].aggressiveness >= defs[
            i
        ].aggressiveness,
{
    lemma_scan_first(s, defs, t, None, nut, 0);
    assert(qualifies(s, defs, t, None, nut, i));
    if i < j {
    } else if j < i {
        assert(prio_ge(defs[j], defs[i]));
        assert(false);
    }
    match scan_from(s, defs, t, None, nut, 0) {
        Some(c) => {
            assert(c <= i);
            if (c as int) < i {
                assert(prio_ge(defs[c as int], defs[i]));
            }
            assert(defs[c as int].aggressiveness >= defs[i].aggressiveness);
            assert(c as int != j);
        },
        None => {
            assert(!qualifies(s, defs, t, None, nut, i));
        },
    }
}

} // verus!
