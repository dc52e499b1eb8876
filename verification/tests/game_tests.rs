use space_game::game::{FlowAction, GameFlow, GameState, Overlay};
use space_game::input::{InputState, KeyState, KEY_A, KEY_BACK, KEY_R, KEY_RETURN, KEY_SPACE};
use space_game::leaderboard::Leaderboard;
use space_game::waves::WaveType;

fn press(input: &mut InputState, key: u32) {
    input.update(key, KeyState::Pressed);
    input.update(key, KeyState::Released);
}

fn table() -> Leaderboard {
    Leaderboard::new(Some("A:50\nB:40\nC:30\nD:20\nE:10"))
}

#[test]
fn new_game_waits_on_start_screen() {
    let g = GameFlow::new(table());
    assert_eq!(g.state, GameState::StartScreen);
    assert_eq!((g.score, g.lives, g.wave_count), (0, 3, 1));
    assert_eq!(g.name_input, "");
}

#[test]
fn space_starts_the_game() {
    let mut g = GameFlow::new(table());
    let mut input = InputState::new();
    assert_eq!(g.step(&mut input, true, false), FlowAction::Stay);
    press(&mut input, KEY_SPACE);
    assert_eq!(g.step(&mut input, true, false), FlowAction::Restart);
    assert_eq!(g.state, GameState::Playing);
    assert!(!input.was_key_pressed(KEY_SPACE));
}

#[test]
fn playing_moves_to_next_wave_when_extinct() {
    let mut g = GameFlow::new(table());
    g.reset();
    let mut input = InputState::new();
    assert_eq!(g.step(&mut input, true, false), FlowAction::Play(None));
    assert_eq!(g.step(&mut input, true, true), FlowAction::Play(Some(WaveType::Classic)));
    assert_eq!(g.wave_count, 2);
    assert_eq!(g.step(&mut input, true, true), FlowAction::Play(Some(WaveType::Swoop)));
    assert_eq!(g.wave_count, 3);
}

#[test]
fn playing_leaves_space_for_the_ship() {
    let mut g = GameFlow::new(table());
    g.reset();
    let mut input = InputState::new();
    press(&mut input, KEY_SPACE);
    g.step(&mut input, true, false);
    assert!(input.was_key_pressed(KEY_SPACE));
}

#[test]
fn r_restarts_while_playing() {
    let mut g = GameFlow::new(table());
    g.reset();
    g.score = 12;
    g.lives = 1;
    g.wave_count = 4;
    let mut input = InputState::new();
    press(&mut input, KEY_R);
    assert_eq!(g.step(&mut input, true, true), FlowAction::Restart);
    assert_eq!((g.score, g.lives, g.wave_count, g.state), (0, 3, 1, GameState::Playing));
}

#[test]
fn losing_with_high_score_asks_for_name() {
    let mut g = GameFlow::new(table());
    g.reset();
    g.score = 11;
    g.lives = 0;
    g.name_input = "OLD".to_string();
    let mut input = InputState::new();
    g.step(&mut input, false, false);
    assert_eq!(g.state, GameState::NameEntry);
    assert_eq!(g.name_input, "");
}

#[test]
fn losing_with_low_score_ends_game() {
    let mut g = GameFlow::new(table());
    g.reset();
    g.score = 10;
    g.lives = 0;
    let mut input = InputState::new();
    g.step(&mut input, false, false);
    assert_eq!(g.state, GameState::GameOver);
}

#[test]
fn lives_left_keep_playing() {
    let mut g = GameFlow::new(table());
    g.reset();
    g.lives = 0;
    let mut input = InputState::new();
    g.step(&mut input, true, false);
    assert_eq!(g.state, GameState::Playing);
}

#[test]
fn name_entry_types_three_letters_and_saves() {
    let mut g = GameFlow::new(table());
    g.reset();
    g.score = 45;
    g.state = GameState::NameEntry;
    let mut input = InputState::new();
    for k in [KEY_A + 2, KEY_A + 4, KEY_A + 6, KEY_A + 8] {
        press(&mut input, k);
        assert_eq!(g.step(&mut input, false, false), FlowAction::Stay);
        input.clear_just_pressed();
    }
    assert_eq!(g.name_input, "CEG");
    press(&mut input, KEY_BACK);
    g.step(&mut input, false, false);
    assert_eq!(g.name_input, "CE");
    press(&mut input, KEY_RETURN);
    assert_eq!(g.step(&mut input, false, false), FlowAction::Stay);
    press(&mut input, KEY_A + 25);
    g.step(&mut input, false, false);
    assert_eq!(g.name_input, "CEZ");
    press(&mut input, KEY_RETURN);
    assert_eq!(g.step(&mut input, false, false), FlowAction::SaveScores);
    assert_eq!(g.state, GameState::GameOver);
    assert_eq!(g.leaderboard.entries[1], ("CEZ".to_string(), 45));
    assert_eq!(g.leaderboard.entries.len(), 5);
}

#[test]
fn letters_of_one_frame_are_typed_in_key_order() {
    let mut g = GameFlow::new(table());
    g.state = GameState::NameEntry;
    let mut input = InputState::new();
    press(&mut input, KEY_A + 25);
    press(&mut input, KEY_A + 1);
    press(&mut input, KEY_A + 10);
    press(&mut input, KEY_A);
    g.step(&mut input, false, false);
    assert_eq!(g.name_input, "ABK");
}

#[test]
fn game_over_r_restarts() {
    let mut g = GameFlow::new(table());
    g.state = GameState::GameOver;
    g.score = 9;
    let mut input = InputState::new();
    assert_eq!(g.step(&mut input, false, false), FlowAction::Stay);
    press(&mut input, KEY_R);
    assert_eq!(g.step(&mut input, false, false), FlowAction::Restart);
    assert_eq!((g.state, g.score, g.lives), (GameState::Playing, 0, 3));
}

#[test]
fn destroy_ship_counts_lives_down_to_zero() {
    let mut g = GameFlow::new(table());
    assert!(g.destroy_ship());
    assert!(g.destroy_ship());
    assert!(!g.destroy_ship());
    assert_eq!(g.lives, 0);
    assert!(!g.destroy_ship());
    assert_eq!(g.lives, 0);
}

#[test]
fn kills_score_only_while_playing() {
    let mut g = GameFlow::new(table());
    g.award_kill(true);
    assert_eq!(g.score, 0);
    g.reset();
    g.award_kill(true);
    g.award_kill(false);
    assert_eq!(g.score, 6);
}

#[test]
fn transition_wave_counts_up() {
    let mut g = GameFlow::new(table());
    assert_eq!(g.transition_wave(), WaveType::Classic);
    assert_eq!(g.transition_wave(), WaveType::Swoop);
    assert_eq!(g.wave_count, 3);
}

#[test]
fn a_volley_scores_all_its_kills() {
    let mut g = GameFlow::new(table());
    g.award_kills(&[true, false]);
    assert_eq!(g.score, 0);
    g.reset();
    g.award_kills(&[true, false, false, true]);
    assert_eq!(g.score, 12);
    g.award_kills(&[]);
    assert_eq!(g.score, 12);
}

#[test]
fn each_screen_has_its_layers() {
    assert!(!GameState::StartScreen.shows_play_field());
    assert!(GameState::Playing.shows_play_field());
    assert!(GameState::NameEntry.shows_play_field());
    assert!(GameState::GameOver.shows_play_field());
    assert_eq!(GameState::StartScreen.overlay(), Some(Overlay::StartMenu));
    assert_eq!(GameState::Playing.overlay(), None);
    assert_eq!(GameState::NameEntry.overlay(), Some(Overlay::NameEntry));
    assert_eq!(GameState::GameOver.overlay(), Some(Overlay::GameOver));
}
