//! What the game is doing, as the other parts of the game ask it.
use vstd::prelude::*;

verus! {

/// The game's current mode.
#[derive(Clone, Copy, Debug, PartialEq, Eq, Structural)]
pub enum GameMode {
    /// At the main menu.
    MainMenu,
    /// In the editor; the mode does not change from there.
    EditMode,
    /// In the overworld.
    Overworld,
    /// In a level, entered at the given one.
    InLevel(u32),
}

/// The game's state.
#[derive(Clone, Copy, Debug, PartialEq, Eq, Structural)]
pub struct TempleState {
    pub game_mode: GameMode,
}

impl Default for TempleState {
    /// The state at start: the main menu.
    fn default() -> (r: TempleState)
        ensures
            r.game_mode == GameMode::MainMenu,
    {
        TempleState { game_mode: GameMode::MainMenu }
    }
}

impl TempleState {
    /// The state of the editor.
    pub fn edit_mode() -> (r: TempleState)
        ensures
            r.game_mode == GameMode::EditMode,
    {
        TempleState { game_mode: GameMode::EditMode }
    }

    pub fn in_edit_mode(&self) -> (r: bool)
        ensures
            r == (self.game_mode == GameMode::EditMode),
    {
        self.game_mode == GameMode::EditMode
    }

    /// Whether play is under way: in a level or in the overworld.
    pub fn in_game(&self) -> (r: bool)
        ensures
            r == (self.game_mode is InLevel || self.game_mode == GameMode::Overworld),
    {
        match self.game_mode {
            GameMode::InLevel(_) => true,
            _ => self.game_mode == GameMode::Overworld,
        }
    }
}

} // verus!
