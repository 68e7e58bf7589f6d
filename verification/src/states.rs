//! The top-level states the application moves through around the
//! simulation: asset loading, the menus, a running level, and the screens
//! between levels.

use vstd::prelude::*;

verus! {

#[derive(Debug, Clone, PartialEq, Eq, Structural, Hash, Default)]
pub enum AppState {
    #[default]
    LoadingAssets,
    Menu,
    LevelList,
    LoadingLevel,
    InGame,
    LevelComplete,
    Credits,
}

} // verus!
