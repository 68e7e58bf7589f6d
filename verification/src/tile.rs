//! The per-tile state of the ecosystem: a coordinate, the ground it stands
//! on, and the plant it hosts.

use vstd::prelude::*;

verus! {

/// The largest nutrient value a fertile tile can carry.
pub const MAX_NUTRIENT: u8 = 8;

/// The fixed, abundant contribution a water neighbour makes to diffusion,
/// modelling runoff.
pub const WATER_RUNOFF: u8 = 16;

/// How many ticks a freshly ignited plant burns before the tile is empty.
pub const FIRE_DURATION: u8 = 4;

/// How much nutrient the fertilize power adds to a tile and its neighbours.
pub const FERTILIZE_BOOST: u8 = 4;

/// How much nutrient the drain power removes from a tile and its neighbours.
pub const DRAIN_AMOUNT: u8 = 4;

/// A grid coordinate. Pure identity: equality and hashing are structural.
#[derive(Debug, Clone, Copy, PartialEq, Eq, Structural, Hash)]
pub struct Tile(pub i32, pub i32);

/// The terrain of a tile. Water is a fixed boundary condition: diffusion
/// never changes it and no plant can grow on it. Fertile ground carries a
/// nutrient value in `[0, MAX_NUTRIENT]`.
#[derive(Debug, Clone, Copy, PartialEq, Eq, Structural)]
pub enum Ground {
    Water,
    Fertile(u8),
}

/// The occupant of a tile: nothing, a species identified by its position in
/// the registry's priority order, or a fire with at least one tick left.
#[derive(Debug, Clone, Copy, PartialEq, Eq, Structural)]
pub enum Plant {
    Empty,
    Species(usize),
    Burning(u8),
}

/// An extra entity placed on a tile by a level description.
#[derive(Debug, Clone, PartialEq, Eq)]
pub enum GameEntity {
    Player,
    Target(String),
}

impl Ground {
    /// The ground's validity: a fertile nutrient value stays in bounds.
    pub open spec fn wf(self) -> bool {
        match self {
            Ground::Water => true,
            Ground::Fertile(n) => n <= MAX_NUTRIENT,
        }
    }

    /// The nutrient of fertile ground; water has none and reads as zero.
    pub open spec fn spec_nutrient(self) -> u8 {
        match self {
            Ground::Water => 0,
            Ground::Fertile(n) => n,
        }
    }

    pub fn nutrient(&self) -> (n: u8)
        ensures
            n == self.spec_nutrient(),
    {
        match self {
            Ground::Water => 0,
            Ground::Fertile(n) => *n,
        }
    }

    pub open spec fn is_water(self) -> bool {
        self is Water
    }

    /// The code this ground carries in a level description: `w` for water,
    /// a digit for fertile ground. A nutrient value over the bound reads as
    /// the bound's digit.
    pub open spec fn spec_code(self) -> Seq<char> {
        match self {
            Ground::Water => "w"@,
            Ground::Fertile(n) => if n == 0 {
                "0"@
            } else if n == 1 {
                "1"@
            } else if n == 2 {
                "2"@
            } else if n == 3 {
                "3"@
            } else if n == 4 {
                "4"@
            } else if n == 5 {
                "5"@
            } else if n == 6 {
                "6"@
            } else if n == 7 {
                "7"@
            } else {
                "8"@
            },
        }
    }

    /// The ground's level-description code, for display.
    pub fn to_string(&self) -> (r: String)
        ensures
            r@ == self.spec_code(),
    {
        match self {
            Ground::Water => "w".to_owned(),
            Ground::Fertile(n) => {
                if *n == 0 {
                    "0".to_owned()
                } else if *n == 1 {
                    "1".to_owned()
                } else if *n == 2 {
                    "2".to_owned()
                } else if *n == 3 {
                    "3".to_owned()
                } else if *n == 4 {
                    "4".to_owned()
                } else if *n == 5 {
                    "5".to_owned()
                } else if *n == 6 {
                    "6".to_owned()
                } else if *n == 7 {
                    "7".to_owned()
                } else {
                    "8".to_owned()
                }
            },
        }
    }
}

impl Plant {
    /// The plant's validity: a fire always has at least one tick left.
    pub open spec fn wf(self) -> bool {
        match self {
            Plant::Burning(n) => n >= 1,
            _ => true,
        }
    }
}

} // verus!
