//! The species registry: immutable plant-species definitions held in a
//! priority order that is computed once, when the registry is loaded.
//!
//! The priority order is a total order, not the declaration order: primary
//! key aggressiveness (descending); ties broken by the `seeded` flag
//! (descending), then `spread_threshold`, `survive_threshold`, `local_cost`
//! and `neighbour_cost` (all descending). Definitions still tied keep a
//! stable but unspecified relative order. A species index is the position in
//! this order; reloading the registry invalidates previously issued indices.

use vstd::prelude::*;

use crate::grid::{tiles_unique, Grid, TileEntry};
use crate::tile::Plant;

verus! {

/// A colour as four 8-bit channels, carried for the rendering collaborator.
#[derive(Debug, Clone, Copy, PartialEq, Eq, Structural)]
pub struct Rgba {
    pub r: u8,
    pub g: u8,
    pub b: u8,
    pub a: u8,
}

/// An immutable rule set describing one plant kind's growth behaviour.
#[derive(Debug)]
pub struct PlantDefinition {
    /// The stable name of the species.
    pub id: String,
    /// The primary priority key: more aggressive species claim tiles first.
    pub aggressiveness: u8,
    /// The nutrient needed for an established plant to stay alive.
    pub survive_threshold: u8,
    /// The nutrient needed for the species to claim a tile.
    pub spread_threshold: u8,
    /// The nutrient the plant consumes on its own tile during diffusion.
    pub local_cost: u8,
    /// The nutrient the plant drains from each neighbour during diffusion.
    pub neighbour_cost: u8,
    /// A seeded species claims an empty tile only next to an established
    /// plant of the same kind.
    pub seeded: bool,
    /// Carried for the rendering collaborator.
    pub color: Rgba,
    /// A reference to the render asset, carried for the rendering
    /// collaborator.
    pub asset: String,
}

/// "`a` sorts no later than `b`" in the priority order. Total and
/// transitive; two definitions with equal keys satisfy it both ways.
pub open spec fn prio_ge(a: PlantDefinition, b: PlantDefinition) -> bool {
    if a.aggressiveness != b.aggressiveness {
        a.aggressiveness > b.aggressiveness
    } else if a.seeded != b.seeded {
        a.seeded
    } else if a.spread_threshold != b.spread_threshold {
        a.spread_threshold > b.spread_threshold
    } else if a.survive_threshold != b.survive_threshold {
        a.survive_threshold > b.survive_threshold
    } else if a.local_cost != b.local_cost {
        a.local_cost > b.local_cost
    } else {
        a.neighbour_cost >= b.neighbour_cost
    }
}

/// Executable form of the priority comparison.
pub fn prio_at_least(a: &PlantDefinition, b: &PlantDefinition) -> (r: bool)
    ensures
        r == prio_ge(*a, *b),
{
    if a.aggressiveness != b.aggressiveness {
        a.aggressiveness > b.aggressiveness
    } else if a.seeded != b.seeded {
        a.seeded
    } else if a.spread_threshold != b.spread_threshold {
        a.spread_threshold > b.spread_threshold
    } else if a.survive_threshold != b.survive_threshold {
        a.survive_threshold > b.survive_threshold
    } else if a.local_cost != b.local_cost {
        a.local_cost > b.local_cost
    } else {
        a.neighbour_cost >= b.neighbour_cost
    }
}

/// Whether some definition in `s` bears the name `id`.
pub open spec fn contains_id(s: Seq<PlantDefinition>, id: Seq<char>) -> bool {
    exists|i: int| 0 <= i < s.len() && (#[trigger] s[i]).id@ == id
}

/// The position of the first definition named `id`, if any.
pub open spec fn spec_by_name(s: Seq<PlantDefinition>, id: Seq<char>) -> Option<int>
    decreases s.len(),
{
    if s.len() == 0 {
        None
    } else if s[0].id@ == id {
        Some(0int)
    } else {
        match spec_by_name(s.drop_first(), id) {
            Some(i) => Some(i + 1),
            None => None,
        }
    }
}

/// The input list with every definition whose name was already seen removed,
/// keeping first occurrences in their order.
pub open spec fn dedup_by_id(s: Seq<PlantDefinition>) -> Seq<PlantDefinition>
    decreases s.len(),
{
    if s.len() == 0 {
        Seq::empty()
    } else {
        let front = dedup_by_id(s.drop_last());
        if contains_id(front, s.last().id@) {
            front
        } else {
            front.push(s.last())
        }
    }
}

/// No two definitions share a name.
pub open spec fn ids_unique(s: Seq<PlantDefinition>) -> bool {
    forall|i: int, j: int| 0 <= i < j < s.len() ==> (#[trigger] s[i]).id@ != (#[trigger] s[j]).id@
}

/// The list is in priority order.
pub open spec fn prio_sorted(s: Seq<PlantDefinition>) -> bool {
    forall|i: int, j: int| 0 <= i < j < s.len() ==> prio_ge(#[trigger] s[i], #[trigger] s[j])
}

/// The species registry. `definitions` is the priority order itself: the
/// definition at position `i` is the species with index `i`.
#[derive(Debug)]
pub struct PlantDefinitions {
    pub definitions: Vec<PlantDefinition>,
}

impl PlantDefinitions {
    /// A valid registry: names unique, list in priority order.
    pub open spec fn wf(self) -> bool {
        ids_unique(self.definitions@) && prio_sorted(self.definitions@)
    }

    /// Build the registry from raw definitions: keep the first definition of
    /// each name, then order them by priority.
    pub fn load(raw: Vec<PlantDefinition>) -> (r: PlantDefinitions)
        ensures
            r.wf(),
            r.definitions@.to_multiset() == dedup_by_id(raw@).to_multiset(),
    {
        broadcast use vstd::seq_lib::group_to_multiset_ensures;

        let ghost raw0 = raw@;
        let mut raw = raw;
        let mut kept: Vec<PlantDefinition> = Vec::new();
        let ghost mut seen = 0int;
        while raw.len() > 0
            invariant
                0 <= seen <= raw0.len(),
                raw@ =~= raw0.subrange(seen, raw0.len() as int),
                kept@ == dedup_by_id(raw0.subrange(0, seen)),
            decreases raw.len(),
        {
            let d = raw.remove(0);
            proof {
                let pre = raw0.subrange(0, seen);
                let now = raw0.subrange(0, seen + 1);
                assert(now.drop_last() =~= pre);
                assert(now.last() == d);
            }
            if !contains_name(&kept, &d.id) {
                kept.push(d);
            }
            proof {
                seen = seen + 1;
                assert(raw@ =~= raw0.subrange(seen, raw0.len() as int));
            }
        }
        proof {
            assert(raw0.subrange(0, raw0.len() as int) =~= raw0);
        }
        let ghost target = dedup_by_id(raw0);
        proof {
            lemma_dedup_ids_unique(raw0);
        }

        let mut ordered: Vec<PlantDefinition> = Vec::new();
        let ghost mut taken = 0int;
        while kept.len() > 0
            invariant
                0 <= taken <= target.len(),
                kept@ =~= target.subrange(taken, target.len() as int),
                ordered@.to_multiset() == target.subrange(0, taken).to_multiset(),
                prio_sorted(ordered@),
                ids_unique(target),
            decreases kept.len(),
        {
            let d = kept.remove(0);
            proof {
                let pre = target.subrange(0, taken);
                let now = target.subrange(0, taken + 1);
                assert(now =~= pre.push(d));
                vstd::seq_lib::to_multiset_build(pre, d);
                assert(now.to_multiset() == pre.to_multiset().insert(d));
            }
            sorted_insert(&mut ordered, d);
            proof {
                taken = taken + 1;
                assert(kept@ =~= target.subrange(taken, target.len() as int));
            }
        }
        proof {
            assert(target.subrange(0, target.len() as int) =~= target);
            lemma_multiset_ids_unique(target, ordered@);
        }
        PlantDefinitions { definitions: ordered }
    }

    pub fn len(&self) -> (n: usize)
        ensures
            n == self.definitions@.len(),
    {
        self.definitions.len()
    }

    /// The definition of the species with index `i`, if the index is one
    /// this registry issued.
    pub fn by_index(&self, i: usize) -> (r: Option<&PlantDefinition>)
        ensures
            r == if i < self.definitions@.len() {
                Some(&self.definitions@[i as int])
            } else {
                None::<&PlantDefinition>
            },
    {
        if i < self.definitions.len() {
            Some(&self.definitions[i])
        } else {
            None
        }
    }

    /// The index of the species named `name`, if any.
    pub fn by_name(&self, name: &String) -> (r: Option<usize>)
        ensures
            r matches Some(i) ==> 0 <= i < self.definitions@.len()
                && self.definitions@[i as int].id@ == name@
                && spec_by_name(self.definitions@, name@) == Some(i as int),
            r is None ==> spec_by_name(self.definitions@, name@) is None,
    {
        let n = self.definitions.len();
        let mut i: usize = 0;
        while i < n
            invariant
                n == self.definitions@.len(),
                i <= n,
                forall|j: int| 0 <= j < i ==> (#[trigger] self.definitions@[j]).id@ != name@,
            decreases n - i,
        {
            if self.definitions[i].id.eq(name) {
                proof {
                    lemma_by_name_index(self.definitions@, name@, i as int);
                }
                return Some(i);
            }
            i += 1;
        }
        proof {
            lemma_by_name_absent(self.definitions@, name@);
        }
        None
    }
}

impl Plant {
    /// The registry definition behind this plant, if it references one.
    pub fn definition<'a>(&self, plants: &'a PlantDefinitions) -> (r: Option<&'a PlantDefinition>)
        ensures
            r == match *self {
                Plant::Species(i) => if i < plants.definitions@.len() {
                    Some(&plants.definitions@[i as int])
                } else {
                    None::<&PlantDefinition>
                },
                _ => None::<&PlantDefinition>,
            },
    {
        match self {
            Plant::Species(i) => plants.by_index(*i),
            _ => None,
        }
    }
}

/// Whether some definition in `v` bears the name `id`.
fn contains_name(v: &Vec<PlantDefinition>, id: &String) -> (r: bool)
    ensures
        r == contains_id(v@, id@),
{
    let n = v.len();
    let mut i: usize = 0;
    while i < n
        invariant
            n == v@.len(),
            i <= n,
            forall|j: int| 0 <= j < i ==> (#[trigger] v@[j]).id@ != id@,
        decreases n - i,
    {
        if v[i].id.eq(id) {
            return true;
        }
        i += 1;
    }
    false
}

/// Insert `d` into a priority-sorted list, keeping it sorted.
fn sorted_insert(v: &mut Vec<PlantDefinition>, d: PlantDefinition)
    requires
        prio_sorted(old(v)@),
    ensures
        prio_sorted(final(v)@),
        final(v)@.to_multiset() == old(v)@.to_multiset().insert(d),
{
    broadcast use vstd::seq_lib::group_to_multiset_ensures;

    let n = v.len();
    let mut p: usize = 0;
    while p < n && prio_at_least(&v[p], &d)
        invariant
            n == v@.len(),
            p <= n,
            forall|i: int| 0 <= i < p ==> prio_ge(#[trigger] v@[i], d),
        decreases n - p,
    {
        p += 1;
    }
    let ghost s0 = v@;
    v.insert(p, d);
    proof {
        let s1 = v@;
        assert(s1 == s0.insert(p as int, d));
        assert forall|i: int, j: int| 0 <= i < j < s1.len() implies prio_ge(
            #[trigger] s1[i],
            #[trigger] s1[j],
        ) by {
            if j == p {
                assert(s1[j] == d);
                assert(s1[i] == s0[i]);
            } else if i == p {
                assert(s1[i] == d);
                assert(s1[j] == s0[j - 1]);
                if p < s0.len() {
                    assert(!prio_ge(s0[p as int], d));
                    assert(prio_ge(d, s0[p as int]));
                    if j - 1 > p {
                        assert(prio_ge(s0[p as int], s0[j - 1]));
                    }
                }
            } else if i < p && j > p {
                assert(s1[i] == s0[i] && s1[j] == s0[j - 1]);
                assert(prio_ge(s0[i], s0[j - 1]));
            } else if j < p {
                assert(s1[i] == s0[i] && s1[j] == s0[j]);
            } else {
                assert(s1[i] == s0[i - 1] && s1[j] == s0[j - 1]);
            }
        }
        vstd::seq_lib::to_multiset_insert(s0, p as int, d);
    }
}

/// The deduplicated list has unique names, and names exactly those of the
/// input.
proof fn lemma_dedup_ids_unique(s: Seq<PlantDefinition>)
    ensures
        ids_unique(dedup_by_id(s)),
    decreases s.len(),
{
    if s.len() > 0 {
        lemma_dedup_ids_unique(s.drop_last());
        let front = dedup_by_id(s.drop_last());
        if !contains_id(front, s.last().id@) {
            let r = front.push(s.last());
            assert forall|i: int, j: int| 0 <= i < j < r.len() implies (#[trigger] r[i]).id@
                != (#[trigger] r[j]).id@ by {
                if j == r.len() - 1 {
                    assert(r[i] == front[i]);
                    assert(!contains_id(front, s.last().id@));
                }
            }
        }
    }
}

/// Unique names survive any reordering: a sequence with the same multiset as
/// one with unique names has unique names itself.
proof fn lemma_multiset_ids_unique(s1: Seq<PlantDefinition>, s2: Seq<PlantDefinition>)
    requires
        ids_unique(s1),
        s2.to_multiset() == s1.to_multiset(),
    ensures
        ids_unique(s2),
{
    broadcast use vstd::seq_lib::group_to_multiset_ensures;

    assert forall|i: int, j: int| 0 <= i < j < s2.len() implies (#[trigger] s2[i]).id@
        != (#[trigger] s2[j]).id@ by {
        if s2[i].id@ == s2[j].id@ {
            if s2[i] == s2[j] {
                let sub = s2.remove(i);
                assert(sub.to_multiset() =~= s2.to_multiset().remove(s2[i]));
                assert(sub[j - 1] == s2[j]);
                assert(sub.contains(s2[j]));
                assert(sub.to_multiset().contains(s2[j]));
                assert(s1.to_multiset().count(s2[i]) >= 2);
                lemma_unique_count_le_one(s1, s2[i]);
            } else {
                assert(s2.contains(s2[i]) && s2.contains(s2[j]));
                assert(s1.to_multiset().contains(s2[i]));
                assert(s1.contains(s2[i]));
                assert(s1.to_multiset().contains(s2[j]));
                assert(s1.contains(s2[j]));
                let a = choose|a: int| 0 <= a < s1.len() && s1[a] == s2[i];
                let b = choose|b: int| 0 <= b < s1.len() && s1[b] == s2[j];
                assert(a != b);
                assert(s1[a].id@ != s1[b].id@);
            }
        }
    }
}

/// With unique names a value occurs at most once: counting it twice would
/// put the same name at two distinct indices.
proof fn lemma_unique_count_le_one(s: Seq<PlantDefinition>, x: PlantDefinition)
    requires
        ids_unique(s),
    ensures
        s.to_multiset().count(x) <= 1,
{
    broadcast use vstd::seq_lib::group_to_multiset_ensures;

    if s.to_multiset().count(x) >= 2 {
        assert(s.to_multiset().contains(x));
        assert(s.contains(x));
        let a = choose|a: int| 0 <= a < s.len() && s[a] == x;
        let sub = s.remove(a);
        assert(sub.to_multiset() =~= s.to_multiset().remove(x));
        assert(sub.to_multiset().count(x) >= 1);
        assert(sub.contains(x));
        let b = choose|b: int| 0 <= b < sub.len() && sub[b] == x;
        if b < a {
            assert(s[b] == x);
            assert(s[b].id@ != s[a].id@);
        } else {
            assert(s[b + 1] == x);
            assert(s[a].id@ != s[b + 1].id@);
        }
    }
}

/// The registry's list and its name lookup are mutually consistent: with
/// unique names, looking the definition at position `i` up by its own name
/// finds exactly position `i`.
pub proof fn lemma_registry_consistent(defs: Seq<PlantDefinition>, i: int)
    requires
        ids_unique(defs),
        0 <= i < defs.len(),
    ensures
        spec_by_name(defs, defs[i].id@) == Some(i),
    decreases i,
{
    if i == 0 {
    } else {
        assert(defs[0].id@ != defs[i].id@);
        let rest = defs.drop_first();
        assert forall|a: int, b: int| 0 <= a < b < rest.len() implies (#[trigger] rest[a]).id@
            != (#[trigger] rest[b]).id@ by {
            assert(defs[a + 1].id@ != defs[b + 1].id@);
        }
        assert(rest[i - 1] == defs[i]);
        lemma_registry_consistent(rest, i - 1);
    }
}

/// A plant re-resolved by its stable name across a registry reload: an
/// established species keeps its identity by name, one whose name the new
/// registry does not know — or whose index the old registry never issued —
/// becomes empty, and emptiness and fire carry over unchanged.
pub open spec fn remap_plant(
    old_defs: Seq<PlantDefinition>,
    new_defs: Seq<PlantDefinition>,
    p: Plant,
) -> Plant {
    match p {
        Plant::Species(i) => if i < old_defs.len() {
            match spec_by_name(new_defs, old_defs[i as int].id@) {
                Some(j) => Plant::Species(j as usize),
                None => Plant::Empty,
            }
        } else {
            Plant::Empty
        },
        _ => p,
    }
}

/// The explicit migration pass run when the registry is rebuilt: every
/// stored species index is re-resolved by name against the new registry,
/// since indices are positions in the priority order and a reload
/// invalidates them all.
pub fn migrate_grid(
    grid: &Grid,
    old_plants: &PlantDefinitions,
    new_plants: &PlantDefinitions,
) -> (r: Grid)
    requires
        grid.wf(),
    ensures
        r.wf(),
        r@.len() == grid@.len(),
        forall|i: int|
            0 <= i < grid@.len() ==> (#[trigger] r@[i]).tile == grid@[i].tile && r@[i].ground
                == grid@[i].ground && r@[i].plant == remap_plant(
                old_plants.definitions@,
                new_plants.definitions@,
                grid@[i].plant,
            ),
{
    let n = grid.len();
    let mut v: Vec<TileEntry> = Vec::new();
    let mut i: usize = 0;
    while i < n
        invariant
            grid.wf(),
            n == grid@.len(),
            i <= n,
            v@.len() == i,
            forall|j: int|
                0 <= j < i ==> (#[trigger] v@[j]).tile == grid@[j].tile && v@[j].ground
                    == grid@[j].ground && v@[j].plant == remap_plant(
                    old_plants.definitions@,
                    new_plants.definitions@,
                    grid@[j].plant,
                ),
        decreases n - i,
    {
        let e = grid.entry_at(i);
        let p2 = match e.plant {
            Plant::Species(idx) => {
                match old_plants.by_index(idx) {
                    Some(d) => match new_plants.by_name(&d.id) {
                        Some(j) => Plant::Species(j),
                        None => Plant::Empty,
                    },
                    None => Plant::Empty,
                }
            },
            _ => e.plant,
        };
        v.push(TileEntry { tile: e.tile, ground: e.ground, plant: p2 });
        i += 1;
    }
    proof {
        assert(tiles_unique(v@));
        assert forall|j: int| 0 <= j < v@.len() implies (#[trigger] v@[j]).wf() by {
            assert(grid@[j].wf());
        }
    }
    Grid::from_entries(v)
}

/// If scanning found `name` first at position `i`, `spec_by_name` agrees.
proof fn lemma_by_name_index(s: Seq<PlantDefinition>, name: Seq<char>, i: int)
    requires
        0 <= i < s.len(),
        s[i].id@ == name,
        forall|j: int| 0 <= j < i ==> (#[trigger] s[j]).id@ != name,
    ensures
        spec_by_name(s, name) == Some(i),
    decreases i,
{
    if i == 0 {
    } else {
        assert(s.drop_first()[i - 1] == s[i]);
        assert(forall|j: int| 0 <= j < i - 1 ==> (#[trigger] s.drop_first()[j]).id@ != name);
        lemma_by_name_index(s.drop_first(), name, i - 1);
    }
}

/// If no definition bears `name`, `spec_by_name` finds none.
proof fn lemma_by_name_absent(s: Seq<PlantDefinition>, name: Seq<char>)
    requires
        forall|j: int| 0 <= j < s.len() ==> (#[trigger] s[j]).id@ != name,
    ensures
        spec_by_name(s, name) is None,
    decreases s.len(),
{
    if s.len() > 0 {
        assert(forall|j: int| 0 <= j < s.len() - 1 ==> (#[trigger] s.drop_first()[j]).id@ != name);
        lemma_by_name_absent(s.drop_first(), name);
    }
}

} // verus!
