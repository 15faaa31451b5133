use snake_tui::menus::{draw_game, game_fits_in};
use snake_tui::style::Color;
use snake_tui::tui::StyledChar;
use snake_tui::highscore::HighScoreEntry;
use snake_tui::menus::{
    draw_end_menu, draw_main_menu, draw_name_entry, draw_scoreboard, end_menu_fits_in,
    format_score_row, main_menu_fits_in, name_entry_fits_in, scoreboard_fits_in, truncate,
};
use snake_tui::tui::{Draw, Renderer, Window};

fn texts(drawn: &[Draw]) -> Vec<(u16, u16, String)> {
    drawn
        .iter()
        .filter_map(|d| match d {
            Draw::Text { x, y, text } => Some((*x, *y, text.clone())),
            _ => None,
        })
        .collect()
}

fn entry(name: &str, score: u16, color: &str, date: &str) -> HighScoreEntry {
    HighScoreEntry {
        name: name.to_string(),
        score,
        color: color.to_string(),
        speed_bits: 10.0f64.to_bits(),
        date: date.to_string(),
    }
}

#[test]
fn truncate_keeps_at_most_max_characters() {
    assert_eq!(truncate("Alexander", 8), "Alexande");
    assert_eq!(truncate("Bob", 8), "Bob");
    assert_eq!(truncate("ééééééééé", 8), "éééééééé");
    assert_eq!(truncate("", 0), "");
}

#[test]
fn score_row_fields_are_aligned() {
    let e = entry("Alexander", 7, "red", "2024-05-01");
    assert_eq!(
        format_score_row(0, &e, "10.0"),
        " 1. Alexande   7pts red     10.0Hz 2024-05-01"
    );
    let e = entry("Bo", 1234, "red-magenta", "d");
    assert_eq!(
        format_score_row(9, &e, " 5.5"),
        "10. Bo       1234pts red-magenta  5.5Hz d"
    );
}

#[test]
fn main_menu_lines() {
    let mut r = Renderer::new(Some((200, 50)));
    let mut w = Window::new(0, 0, 60, 20);
    assert!(main_menu_fits_in(&w));
    draw_main_menu(&mut w, &mut r);
    let t = texts(&r.present());
    assert_eq!(t[0], (26, 0, "[ Snake ]".to_string()));
    assert_eq!(t[1], (17, 2, "Snake game in the terminal".to_string()));
    assert_eq!(t[2], (23, 3, "written in Rust".to_string()));
    assert_eq!(t[3], (8, 5, "Use arrow keys ← → ↑ ↓, WASD or HJKL to move".to_string()));
    assert_eq!(t[4], (22, 7, "Press ESC to exit".to_string()));
}

#[test]
fn narrow_window_cannot_hold_the_main_menu() {
    let w = Window::new(0, 0, 30, 20);
    assert!(!main_menu_fits_in(&w));
}

#[test]
fn end_menu_lines() {
    let mut r = Renderer::new(Some((200, 50)));
    let mut w = Window::new(0, 0, 60, 20);
    assert!(end_menu_fits_in(&w, 12, "3.5"));
    draw_end_menu(&mut w, &mut r, 12, "3.5");
    let t = texts(&r.present());
    assert_eq!(t[0].2, "[ Game Over ]");
    assert_eq!(t[1], (22, 2, "You ate 12 apples".to_string()));
    assert_eq!(t[2], (22, 3, "You survived 3.5s".to_string()));
    assert_eq!(t[3].2, "Use arrow keys ← → ↑ ↓, WASD or HJKL to restart");
}

#[test]
fn name_entry_lines() {
    let mut r = Renderer::new(Some((200, 50)));
    let mut w = Window::new(0, 0, 60, 20);
    assert!(name_entry_fits_in(&w, 0, "Ann"));
    draw_name_entry(&mut w, &mut r, 0, "Ann");
    let t = texts(&r.present());
    assert_eq!(t[1].2, "You ate 0 apples");
    assert_eq!(t[2].2, "Enter your name for the high score board:");
    assert_eq!(t[3], (28, 6, "Ann_".to_string()));
    assert_eq!(t[4].2, "Press Enter to confirm");
}

#[test]
fn scoreboard_without_scores() {
    let mut r = Renderer::new(Some((200, 50)));
    let mut w = Window::new(0, 0, 60, 20);
    assert!(scoreboard_fits_in(&w, 0));
    draw_scoreboard(&mut w, &mut r, &vec![], &vec![]);
    let t = texts(&r.present());
    assert_eq!(t[0].2, "[ High Scores ]");
    assert_eq!(t[1], (24, 2, "No scores yet".to_string()));
    assert_eq!(t[2], (7, 4, "Press an arrow key, WASD or HJKL to play again".to_string()));
}

#[test]
fn scoreboard_with_scores() {
    let mut r = Renderer::new(Some((200, 50)));
    let mut w = Window::new(1, 1, 60, 20);
    let scores = vec![entry("Ann", 30, "green", "2024-01-02"), entry("Bob", 20, "rainbow", "2024-01-03")];
    let speeds = vec!["10.0".to_string(), "12.5".to_string()];
    assert!(scoreboard_fits_in(&w, 2));
    draw_scoreboard(&mut w, &mut r, &scores, &speeds);
    let t = texts(&r.present());
    assert_eq!(t[1], (3, 3, " 1. Ann       30pts green   10.0Hz 2024-01-02".to_string()));
    assert_eq!(t[2], (3, 4, " 2. Bob       20pts rainbow 12.5Hz 2024-01-03".to_string()));
    assert_eq!(t[3], (8, 6, "Press an arrow key, WASD or HJKL to play again".to_string()));
}

#[test]
fn playing_screen_draws_each_tile_twice_as_wide() {
    let a = StyledChar { ch: ' ', foreground: None, background: Some(Color::Red) };
    let b = StyledChar { ch: ' ', foreground: Some(Color::Blue), background: None };
    let tiles = vec![vec![a, b], vec![b, a]];
    let mut r = Renderer::new(Some((200, 50)));
    let mut w = Window::new(2, 3, 30, 10);
    assert!(game_fits_in(&w, 105, &tiles));
    draw_game(&mut w, &mut r, 105, &tiles);
    let drawn = r.present();
    let t = texts(&drawn);
    assert_eq!(t, vec![(10, 3, "[ Apples: 105 ]".to_string())]);
    let field = &drawn[drawn.len() - 8..];
    let cell = |x: u16, y: u16, c: StyledChar| Draw::Cell { x, y, content: c };
    assert_eq!(
        field,
        &[
            cell(3, 4, a),
            cell(4, 4, a),
            cell(5, 4, b),
            cell(6, 4, b),
            cell(3, 5, b),
            cell(4, 5, b),
            cell(5, 5, a),
            cell(6, 5, a),
        ]
    );
}

#[test]
fn ragged_or_out_of_range_fields_do_not_fit() {
    let a = StyledChar::plain(' ');
    let w = Window::new(2, 3, 30, 10);
    assert!(!game_fits_in(&w, 0, &vec![vec![a, a], vec![a]]));
    assert!(game_fits_in(&w, 0, &vec![vec![a], vec![a, a]]));
    assert!(game_fits_in(&w, 0, &vec![]));
    let far = Window::new(65530, 3, 30, 10);
    assert!(!game_fits_in(&far, 0, &vec![vec![a, a, a, a]]));
}
