use temple::attributes::{goal_exit_param, transition_level_param, MovingDirection, TransitionParamError};
use temple::lex::ParseArgumentItem;
use temple::settings::{find_toml_problems, CliArgs, GameFile, LevelTransistionType, NextLevelStep};

#[test]
fn game_file_default_and_level_order_check() {
    let g = GameFile::default();
    assert_eq!(g.title, "Temple");
    assert_eq!(g.authors, vec!["ALUMUX (Chris M.)".to_string()]);
    assert_eq!(g.level_transistion, LevelTransistionType::NoOverworld);
    assert_eq!(g.level_order, Some(vec![0]));
    assert!(!g.is_missing_level_order());

    let mut missing = g.clone();
    missing.level_order = None;
    assert!(missing.is_missing_level_order());
    missing.level_transistion = LevelTransistionType::Overworld;
    assert!(!missing.is_missing_level_order());
}

#[test]
fn author_list_runs_names_together() {
    let mut g = GameFile::default();
    assert_eq!(g.author_list(), Some("ALUMUX (Chris M.)".to_string()));
    g.authors = vec!["ab".to_string(), "cd".to_string(), "e".to_string()];
    assert_eq!(g.author_list(), Some("abcde".to_string()));
    g.authors = vec![];
    assert_eq!(g.author_list(), None);
}

#[test]
fn toml_problems_are_reported_with_path() {
    let ok = toml::from_str::<toml::Value>("a = 1");
    assert_eq!(find_toml_problems("assets/game.toml", ok), None);
    let bad = toml::from_str::<toml::Value>("a = = 1");
    let line = find_toml_problems("assets/levels/0.toml", bad).unwrap();
    assert!(line.starts_with("File verification failed for assets/levels/0.toml: "));
    assert!(line.len() > "File verification failed for assets/levels/0.toml: ".len());
}

#[test]
fn cli_args_builder() {
    let args = CliArgs::builder().build();
    assert_eq!(args, CliArgs { load_level: None, show_fps_counter: false, edit_mode: false });
    let args = CliArgs::builder().load_level(3).show_fps_counter().enable_editor().build();
    assert_eq!(args, CliArgs { load_level: Some(3), show_fps_counter: true, edit_mode: true });
}

#[test]
fn attribute_arguments_by_position() {
    let s = |w: &str| ParseArgumentItem::Str(w.to_string());
    assert_eq!(MovingDirection::from_param(s("right")), Some(MovingDirection::Right));
    assert_eq!(MovingDirection::from_param(s("down")), Some(MovingDirection::Down));
    assert_eq!(MovingDirection::from_param(s("left")), Some(MovingDirection::Left));
    assert_eq!(MovingDirection::from_param(s("up")), Some(MovingDirection::Up));
    assert_eq!(MovingDirection::from_param(s("sideways")), None);

    assert_eq!(transition_level_param(&vec![ParseArgumentItem::Number(4)]), Ok(4));
    assert_eq!(transition_level_param(&vec![]), Err(TransitionParamError::Missing));
    assert_eq!(transition_level_param(&vec![s("x")]), Err(TransitionParamError::NotANumber));
    assert_eq!(transition_level_param(&vec![ParseArgumentItem::Number(-1)]), Err(TransitionParamError::OutOfRange));
    assert_eq!(
        transition_level_param(&vec![ParseArgumentItem::Number(4294967296)]),
        Err(TransitionParamError::OutOfRange)
    );

    assert_eq!(goal_exit_param(&vec![ParseArgumentItem::Number(2), s("x")]), Some(2));
    assert_eq!(goal_exit_param(&vec![ParseArgumentItem::Number(-2)]), None);
    assert_eq!(goal_exit_param(&vec![ParseArgumentItem::Bool(true)]), None);
    assert_eq!(goal_exit_param(&vec![]), None);
}

fn ordered_game(order: Vec<u32>) -> GameFile {
    GameFile {
        title: "".to_string(),
        authors: vec![],
        level_transistion: LevelTransistionType::NoOverworld,
        level_order: Some(order),
        credits: "".to_string(),
        credit_music: "".to_string(),
    }
}

#[test]
fn test_auto_next_level() {
    let game_file = ordered_game(vec![0, 1]);
    assert_eq!(game_file.next_level(0), NextLevelStep::Transition(1));
}

#[test]
fn test_auto_next_level_credits() {
    let game_file = ordered_game(vec![0, 1]);
    assert_eq!(game_file.next_level(1), NextLevelStep::Credits);
}

#[test]
fn next_level_stays_outside_the_order() {
    let game_file = ordered_game(vec![3, 5, 3, 9]);
    assert_eq!(game_file.next_level(3), NextLevelStep::Transition(5));
    assert_eq!(game_file.next_level(9), NextLevelStep::Credits);
    assert_eq!(game_file.next_level(4), NextLevelStep::Stay);
    let mut overworld = ordered_game(vec![0, 1]);
    overworld.level_transistion = LevelTransistionType::Overworld;
    assert_eq!(overworld.next_level(0), NextLevelStep::Stay);
}
