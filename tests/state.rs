use temple::state::{GameMode, TempleState};

#[test]
fn test_temple_state() {
    let main_menu = TempleState::default();
    assert_eq!(GameMode::MainMenu, main_menu.game_mode);
    let mut temple_state = TempleState::edit_mode();
    assert!(temple_state.in_edit_mode());
    assert!(!temple_state.in_game());
    temple_state.game_mode = GameMode::InLevel(0);
    assert!(temple_state.in_game());
    temple_state.game_mode = GameMode::Overworld;
    assert!(temple_state.in_game());
}
