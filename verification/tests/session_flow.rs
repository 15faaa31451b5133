use snake_tui::highscore::HighScoreEntry;
use snake_tui::session::{
    direction_for_key, final_name, Direction, GameState, Key, KeyAction, PostGamePhase, Screen,
    Session,
};

fn entry(score: u16) -> HighScoreEntry {
    HighScoreEntry {
        name: "x".to_string(),
        score,
        color: "green".to_string(),
        speed_bits: 10.0f64.to_bits(),
        date: "d".to_string(),
    }
}

fn name_of(s: &Session) -> String {
    match &s.post_game {
        Some(PostGamePhase::NameEntry(n)) => n.clone(),
        _ => panic!("not entering a name"),
    }
}

fn pending(s: &Session) -> Vec<Direction> {
    s.pending_moves.iter().copied().collect()
}

#[test]
fn arrows_wasd_and_hjkl_turn_the_snake() {
    for k in [Key::Up, Key::Char('w'), Key::Char('k')] {
        assert_eq!(direction_for_key(k), Some(Direction::Up));
    }
    for k in [Key::Down, Key::Char('s'), Key::Char('j')] {
        assert_eq!(direction_for_key(k), Some(Direction::Down));
    }
    for k in [Key::Left, Key::Char('a'), Key::Char('h')] {
        assert_eq!(direction_for_key(k), Some(Direction::Left));
    }
    for k in [Key::Right, Key::Char('d'), Key::Char('l')] {
        assert_eq!(direction_for_key(k), Some(Direction::Right));
    }
    assert_eq!(direction_for_key(Key::Char('W')), None);
    assert_eq!(direction_for_key(Key::Enter), None);
}

#[test]
fn at_most_two_turns_are_buffered() {
    let mut s = Session::new();
    assert_eq!(s.on_key(Key::Up), KeyAction::Nothing);
    s.on_key(Key::Left);
    s.on_key(Key::Down);
    assert_eq!(pending(&s), vec![Direction::Up, Direction::Left]);
    assert_eq!(s.next_move(GameState::Started), Some(Direction::Up));
    assert_eq!(s.next_move(GameState::Started), Some(Direction::Left));
    assert_eq!(s.next_move(GameState::Started), None);
}

#[test]
fn escape_quits_everywhere() {
    let mut s = Session::new();
    assert_eq!(s.on_key(Key::Esc), KeyAction::Quit);
    s.post_game = Some(PostGamePhase::NameEntry("ab".to_string()));
    assert_eq!(s.on_key(Key::Esc), KeyAction::Quit);
    s.post_game = Some(PostGamePhase::Scoreboard(vec![]));
    assert_eq!(s.on_key(Key::Esc), KeyAction::Quit);
}

#[test]
fn game_over_screen_then_the_board() {
    let mut s = Session::new();
    assert!(!s.after_step(GameState::Starting, GameState::Started, 1_000_000_000));
    assert_eq!(s.game_start, Some(1_000_000_000));
    assert!(!s.after_step(GameState::Started, GameState::Ended, 6_000_000_000));
    assert_eq!(s.post_game, Some(PostGamePhase::Cooldown));
    assert_eq!(s.screen(GameState::Ended), Screen::EndMenu { survived_ns: 5_000_000_000 });
    assert!(!s.after_step(GameState::Ended, GameState::Ended, 9_999_999_999));
    assert!(s.after_step(GameState::Ended, GameState::Ended, 10_000_000_000));
    assert_eq!(s.next_move(GameState::Ended), None);
}

#[test]
fn qualifying_score_asks_for_a_name() {
    let mut s = Session::new();
    s.open_board(vec![entry(5)], 0);
    assert_eq!(name_of(&s), "");
    assert_eq!(s.screen(GameState::Ended), Screen::NameEntry);
    let full: Vec<HighScoreEntry> = (0..10).map(|_| entry(5)).collect();
    s.open_board(full.clone(), 5);
    assert_eq!(s.post_game, Some(PostGamePhase::Scoreboard(full)));
    assert_eq!(s.screen(GameState::Ended), Screen::Scoreboard);
}

#[test]
fn name_entry_edits_the_name() {
    let mut s = Session::new();
    s.post_game = Some(PostGamePhase::NameEntry(String::new()));
    for c in "Ann\u{7}e".chars() {
        s.on_key(Key::Char(c));
    }
    assert_eq!(name_of(&s), "Anne");
    s.on_key(Key::Backspace);
    assert_eq!(name_of(&s), "Ann");
    s.on_key(Key::Up);
    assert_eq!(name_of(&s), "Ann");
    assert!(pending(&s).is_empty());
    for c in "abcdefgh".chars() {
        s.on_key(Key::Char(c));
    }
    assert_eq!(name_of(&s), "Annabcde");
    assert_eq!(s.on_key(Key::Enter), KeyAction::Submit("Annabcde".to_string()));
    s.post_game = Some(PostGamePhase::NameEntry(String::new()));
    s.on_key(Key::Backspace);
    assert_eq!(name_of(&s), "");
}

#[test]
fn blank_names_are_filed_as_anonymous() {
    assert_eq!(final_name("   "), "Anonymous");
    assert_eq!(final_name(""), "Anonymous");
    assert_eq!(final_name(" Zoe "), "Zoe");
}

#[test]
fn a_direction_on_the_board_starts_over() {
    let mut s = Session::new();
    s.on_key(Key::Up);
    s.on_key(Key::Up);
    s.post_game = Some(PostGamePhase::Scoreboard(vec![entry(1)]));
    s.on_key(Key::Char('x'));
    assert!(s.post_game.is_some());
    s.on_key(Key::Char('d'));
    assert_eq!(s.post_game, None);
    assert_eq!(pending(&s), vec![Direction::Up, Direction::Up, Direction::Right]);
}

#[test]
fn screens_follow_the_game() {
    let mut s = Session::new();
    assert_eq!(s.screen(GameState::Starting), Screen::MainMenu);
    assert_eq!(s.screen(GameState::Started), Screen::Playing);
    assert_eq!(s.screen(GameState::Ended), Screen::EndMenu { survived_ns: 0 });
    s.after_step(GameState::Ended, GameState::Started, 50);
    assert_eq!(s.ended_at, None);
    assert_eq!(s.post_game, None);
}
