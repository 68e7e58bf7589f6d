//! A deterministic tile-ecosystem simulation: a sparse grid of tiles whose
//! ground carries a nutrient value and whose plants grow, spread, compete,
//! burn out, and respond to consumable player powers.

pub mod control;
pub mod grid;
pub mod level;
pub mod plants;
pub mod states;
pub mod tile;
pub mod update_tiles;
