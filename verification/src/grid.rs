//! The sparse grid store: a mapping from tile coordinate to per-tile ground
//! and plant state, with neighbour lookups over the eight surrounding
//! coordinates.
//!
//! A tile that has no entry is simply absent: it does not count as water or
//! as fertile ground of any value.

use vstd::prelude::*;

use crate::tile::{Ground, Plant, Tile};

verus! {

/// One stored tile together with its state.
#[derive(Debug, Clone, Copy, PartialEq, Eq, Structural)]
pub struct TileEntry {
    pub tile: Tile,
    pub ground: Ground,
    pub plant: Plant,
}

impl TileEntry {
    pub open spec fn wf(self) -> bool {
        self.ground.wf() && self.plant.wf()
    }
}

/// Whether some entry of `s` is keyed by `t`.
pub open spec fn has_tile(s: Seq<TileEntry>, t: Tile) -> bool {
    exists|i: int| 0 <= i < s.len() && (#[trigger] s[i]).tile == t
}

/// The index of the entry keyed by `t`; meaningful only when `has_tile`
/// holds and the keys are unique.
pub open spec fn index_of(s: Seq<TileEntry>, t: Tile) -> int {
    choose|i: int| 0 <= i < s.len() && (#[trigger] s[i]).tile == t
}

/// The entry keyed by `t`, if any.
pub open spec fn tile_at(s: Seq<TileEntry>, t: Tile) -> Option<TileEntry> {
    if has_tile(s, t) {
        Some(s[index_of(s, t)])
    } else {
        None
    }
}

/// No two entries share a tile coordinate.
pub open spec fn tiles_unique(s: Seq<TileEntry>) -> bool {
    forall|i: int, j: int| 0 <= i < j < s.len() ==> (#[trigger] s[i]).tile != (#[trigger] s[j]).tile
}

/// Every stored state is valid.
pub open spec fn entries_wf(s: Seq<TileEntry>) -> bool {
    forall|i: int| 0 <= i < s.len() ==> (#[trigger] s[i]).wf()
}

/// A well-formed grid: unique keys and valid states.
pub open spec fn grid_wf(s: Seq<TileEntry>) -> bool {
    tiles_unique(s) && entries_wf(s)
}

/// With unique keys, the entry at index `i` is exactly what lookup by its
/// tile finds.
pub proof fn lemma_tile_at_index(s: Seq<TileEntry>, i: int)
    requires
        tiles_unique(s),
        0 <= i < s.len(),
    ensures
        has_tile(s, s[i].tile),
        index_of(s, s[i].tile) == i,
        tile_at(s, s[i].tile) == Some(s[i]),
{
    assert(has_tile(s, s[i].tile));
    let j = index_of(s, s[i].tile);
    assert(0 <= j < s.len() && s[j].tile == s[i].tile);
    if i != j {
        assert(s[i].tile != s[j].tile);
    }
}

/// The sparse grid store.
pub struct Grid {
    entries: Vec<TileEntry>,
}

impl View for Grid {
    type V = Seq<TileEntry>;

    closed spec fn view(&self) -> Seq<TileEntry> {
        self.entries@
    }
}

impl Grid {
    pub open spec fn wf(self) -> bool {
        grid_wf(self@)
    }

    /// An empty grid.
    pub fn new() -> (g: Grid)
        ensures
            g@ =~= Seq::<TileEntry>::empty(),
            g.wf(),
    {
        Grid { entries: Vec::new() }
    }

    pub fn len(&self) -> (n: usize)
        ensures
            n == self@.len(),
    {
        self.entries.len()
    }

    /// The entry at position `i`, for callers that walk the whole grid.
    pub fn entry_at(&self, i: usize) -> (e: TileEntry)
        requires
            i < self@.len(),
        ensures
            e == self@[i as int],
    {
        self.entries[i]
    }

    /// The position of the entry keyed by `t`, if any.
    fn find(&self, t: Tile) -> (r: Option<usize>)
        ensures
            match r {
                Some(i) => i < self@.len() && self@[i as int].tile == t,
                None => !has_tile(self@, t),
            },
    {
        let n = self.entries.len();
        let mut i: usize = 0;
        while i < n
            invariant
                n == self@.len(),
                i <= n,
                forall|j: int| 0 <= j < i ==> (#[trigger] self@[j]).tile != t,
            decreases n - i,
        {
            if self.entries[i].tile == t {
                return Some(i);
            }
            i += 1;
        }
        None
    }

    /// The ground and plant stored for `t`, if the tile is present.
    pub fn get(&self, t: Tile) -> (r: Option<(Ground, Plant)>)
        requires
            self.wf(),
        ensures
            r == match tile_at(self@, t) {
                Some(e) => Some((e.ground, e.plant)),
                None => None::<(Ground, Plant)>,
            },
    {
        match self.find(t) {
            Some(i) => {
                proof {
                    lemma_tile_at_index(self@, i as int);
                }
                let e = self.entries[i];
                Some((e.ground, e.plant))
            },
            None => None,
        }
    }

    /// Store `ground` and `plant` for `t`, replacing any previous entry.
    pub fn set(&mut self, t: Tile, ground: Ground, plant: Plant)
        requires
            old(self).wf(),
            ground.wf(),
            plant.wf(),
        ensures
            final(self).wf(),
            tile_at(final(self)@, t) == Some(TileEntry { tile: t, ground, plant }),
            forall|t2: Tile| t2 != t ==> tile_at(final(self)@, t2) == tile_at(old(self)@, t2),
            has_tile(old(self)@, t) ==> final(self)@.len() == old(self)@.len(),
            !has_tile(old(self)@, t) ==> final(self)@.len() == old(self)@.len() + 1,
    {
        let ghost s0 = self@;
        let e = TileEntry { tile: t, ground, plant };
        match self.find(t) {
            Some(i) => {
                self.entries[i] = e;
                proof {
                    let s1 = self@;
                    assert(tiles_unique(s1));
                    lemma_tile_at_index(s1, i as int);
                    assert forall|t2: Tile| t2 != t implies tile_at(s1, t2) == tile_at(
                        s0,
                        t2,
                    ) by {
                        lemma_set_other(s0, s1, i as int, t2);
                    }
                }
            },
            None => {
                self.entries.push(e);
                proof {
                    let s1 = self@;
                    assert(s1 =~= s0.push(e));
                    assert forall|i: int, j: int| 0 <= i < j < s1.len() implies s1[i].tile
                        != s1[j].tile by {
                        if j < s0.len() {
                        } else {
                            assert(s1[j] == e);
                            assert(!has_tile(s0, t));
                            assert(s0[i].tile != t);
                        }
                    }
                    lemma_tile_at_index(s1, s1.len() - 1);
                    assert forall|t2: Tile| t2 != t implies tile_at(s1, t2) == tile_at(
                        s0,
                        t2,
                    ) by {
                        lemma_push_other(s0, e, t2);
                    }
                }
            },
        }
    }

    /// Build a grid wholesale from a list of entries with unique tiles and
    /// valid states.
    pub fn from_entries(entries: Vec<TileEntry>) -> (g: Grid)
        requires
            grid_wf(entries@),
        ensures
            g@ == entries@,
            g.wf(),
    {
        Grid { entries }
    }

    /// An independently owned copy, the immutable "before" state of a tick.
    pub fn snapshot(&self) -> (g: Grid)
        ensures
            g@ == self@,
    {
        let n = self.entries.len();
        let mut v: Vec<TileEntry> = Vec::new();
        let mut i: usize = 0;
        while i < n
            invariant
                n == self@.len(),
                i <= n,
                v@ =~= self@.subrange(0, i as int),
            decreases n - i,
        {
            v.push(self.entries[i]);
            i += 1;
        }
        proof {
            assert(v@ =~= self@);
        }
        Grid { entries: v }
    }
}

/// Updating position `i` leaves lookups of every other tile unchanged.
proof fn lemma_set_other(s0: Seq<TileEntry>, s1: Seq<TileEntry>, i: int, t2: Tile)
    requires
        tiles_unique(s0),
        0 <= i < s0.len(),
        s1.len() == s0.len(),
        forall|j: int| 0 <= j < s0.len() && j != i ==> s1[j] == s0[j],
        s1[i].tile == s0[i].tile,
        t2 != s0[i].tile,
    ensures
        tile_at(s1, t2) == tile_at(s0, t2),
{
    assert(tiles_unique(s1));
    if has_tile(s0, t2) {
        let j = index_of(s0, t2);
        assert(0 <= j < s0.len() && s0[j].tile == t2);
        assert(j != i);
        assert(s1[j].tile == t2);
        assert(has_tile(s1, t2));
        lemma_tile_at_index(s1, j);
    } else {
        if has_tile(s1, t2) {
            let j = index_of(s1, t2);
            assert(s0[j].tile == t2);
        }
    }
}

/// Appending an entry for a fresh tile leaves lookups of every other tile
/// unchanged.
proof fn lemma_push_other(s0: Seq<TileEntry>, e: TileEntry, t2: Tile)
    requires
        tiles_unique(s0),
        tiles_unique(s0.push(e)),
        t2 != e.tile,
    ensures
        tile_at(s0.push(e), t2) == tile_at(s0, t2),
{
    let s1 = s0.push(e);
    if has_tile(s0, t2) {
        let j = index_of(s0, t2);
        assert(s1[j].tile == t2);
        assert(has_tile(s1, t2));
        lemma_tile_at_index(s1, j);
        lemma_tile_at_index(s0, j);
    } else {
        if has_tile(s1, t2) {
            let j = index_of(s1, t2);
            if j < s0.len() {
                assert(s0[j].tile == t2);
            } else {
                assert(s1[j] == e);
            }
        }
    }
}

} // verus!
