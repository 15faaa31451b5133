use snake_tui::highscore::{add_score, qualifies, HighScoreEntry, MAX_ENTRIES};

fn entry(name: &str, score: u16) -> HighScoreEntry {
    HighScoreEntry {
        name: name.to_string(),
        score,
        color: "green".to_string(),
        speed_bits: 10.0f64.to_bits(),
        date: "2024-01-01".to_string(),
    }
}

fn scores_of(board: &[HighScoreEntry]) -> Vec<u16> {
    board.iter().map(|e| e.score).collect()
}

fn names_of(board: &[HighScoreEntry]) -> Vec<String> {
    board.iter().map(|e| e.name.clone()).collect()
}

fn full_board() -> Vec<HighScoreEntry> {
    (0..10u16).map(|i| entry(&format!("p{}", i), 100 - i * 10)).collect()
}

#[test]
fn room_left_always_qualifies() {
    assert!(qualifies(&vec![], 0));
    let board: Vec<HighScoreEntry> = (0..9u16).map(|i| entry("a", 50 + i)).collect();
    assert!(qualifies(&board, 0));
}

#[test]
fn full_board_needs_to_beat_the_lowest() {
    let board = full_board();
    assert_eq!(board.len(), MAX_ENTRIES);
    assert!(qualifies(&board, 11));
    assert!(!qualifies(&board, 10));
    assert!(!qualifies(&board, 0));
}

#[test]
fn new_entry_is_ranked_by_score() {
    let board = vec![entry("a", 30), entry("b", 20), entry("c", 10)];
    let after = add_score(board, entry("d", 25));
    assert_eq!(scores_of(&after), vec![30, 25, 20, 10]);
    assert_eq!(names_of(&after), vec!["a", "d", "b", "c"]);
}

#[test]
fn equal_scores_keep_submission_order() {
    let board = vec![entry("first", 20), entry("second", 20)];
    let after = add_score(board, entry("third", 20));
    assert_eq!(names_of(&after), vec!["first", "second", "third"]);
}

#[test]
fn unordered_board_is_sorted_stably() {
    let board = vec![entry("a", 5), entry("b", 50), entry("c", 5), entry("d", 30)];
    let after = add_score(board, entry("e", 30));
    assert_eq!(names_of(&after), vec!["b", "d", "e", "a", "c"]);
}

#[test]
fn board_is_cut_to_ten_entries() {
    let after = add_score(full_board(), entry("new", 55));
    assert_eq!(after.len(), MAX_ENTRIES);
    assert_eq!(
        scores_of(&after),
        vec![100, 90, 80, 70, 60, 55, 50, 40, 30, 20]
    );
}

#[test]
fn a_score_that_does_not_qualify_leaves_the_board_unchanged() {
    let board = full_board();
    assert!(!qualifies(&board, 10));
    let after = add_score(board.clone(), entry("late", 10));
    assert_eq!(after, board);
}

#[test]
fn a_qualifying_score_is_kept_at_its_rank() {
    let board = full_board();
    assert!(qualifies(&board, 11));
    let after = add_score(board, entry("just", 11));
    assert_eq!(after[9].name, "just");
    assert_eq!(after.len(), MAX_ENTRIES);
}

#[test]
fn first_entry_on_an_empty_board() {
    let after = add_score(vec![], entry("solo", 0));
    assert_eq!(names_of(&after), vec!["solo"]);
}

#[test]
fn oversized_board_is_cut_even_when_score_qualifies() {
    let mut board: Vec<HighScoreEntry> = (0..10u16).map(|_| entry("hi", 5)).collect();
    board.push(entry("low", 1));
    assert!(qualifies(&board, 3));
    let after = add_score(board, entry("mid", 3));
    assert_eq!(after.len(), MAX_ENTRIES);
    assert!(after.iter().all(|e| e.name == "hi"));
}
