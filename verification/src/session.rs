//! The decisions of the game loop around the game itself: which keys turn
//! the snake or edit the player's name, when the game-over screen gives way
//! to name entry or the score board, and which screen is shown.
use std::collections::VecDeque;

use vstd::prelude::*;

use crate::highscore::{earns_spot, qualifies, HighScoreEntry};
use crate::menus::MAX_NAME_LEN;
use crate::text::{
    all_white_space, is_white_space, lemma_trimmed_is_the_core, string_push, trim, trimmed,
};

verus! {

/// How long the game-over screen stays before the board, in nanoseconds.
pub const END_SCREEN_LOCK_NS: u64 = 4_000_000_000;

/// Most turns buffered while a game runs.
pub const MAX_PENDING_MOVES: usize = 2;

/// A direction the snake can be turned to.
#[derive(Copy, Clone, Debug, PartialEq, Eq, Structural)]
pub enum Direction {
    Up,
    Down,
    Left,
    Right,
}

/// The state of the game as the loop observes it.
#[derive(Copy, Clone, Debug, PartialEq, Eq, Structural)]
pub enum GameState {
    Starting,
    Started,
    Ended,
}

/// A key press, as far as the game tells keys apart.
#[derive(Copy, Clone, Debug, PartialEq, Eq, Structural)]
pub enum Key {
    Esc,
    Enter,
    Backspace,
    Up,
    Down,
    Left,
    Right,
    Char(char),
    Other,
}

/// What follows a finished game.
#[derive(Clone, Debug, PartialEq)]
pub enum PostGamePhase {
    /// The game-over screen, shown for a while.
    Cooldown,
    /// The player types a name for the board.
    NameEntry(String),
    /// The board is shown.
    Scoreboard(Vec<HighScoreEntry>),
}

/// What the loop has to do after a key.
#[derive(Clone, Debug, PartialEq)]
pub enum KeyAction {
    /// Leave the game.
    Quit,
    /// Put the score on the board under this name, then show the board.
    Submit(String),
    /// Nothing beyond what the session changed itself.
    Nothing,
}

/// Which screen to draw.
#[derive(Copy, Clone, Debug, PartialEq, Eq, Structural)]
pub enum Screen {
    MainMenu,
    Playing,
    NameEntry,
    Scoreboard,
    /// The game-over screen, with how long the game lasted.
    EndMenu { survived_ns: u64 },
}

/// The loop's state around the game. Times are nanoseconds on the loop's
/// monotonic clock.
pub struct Session {
    pub pending_moves: VecDeque<Direction>,
    pub post_game: Option<PostGamePhase>,
    pub game_start: Option<u64>,
    pub ended_at: Option<u64>,
}

/// The direction a key turns the snake to: arrows, WASD or HJKL.
pub open spec fn direction_of(key: Key) -> Option<Direction> {
    match key {
        Key::Up | Key::Char('k') | Key::Char('w') => Some(Direction::Up),
        Key::Down | Key::Char('j') | Key::Char('s') => Some(Direction::Down),
        Key::Left | Key::Char('h') | Key::Char('a') => Some(Direction::Left),
        Key::Right | Key::Char('l') | Key::Char('d') => Some(Direction::Right),
        _ => None,
    }
}

/// The name being typed, when a name is being entered.
pub open spec fn typed_name(phase: Option<PostGamePhase>) -> Option<Seq<char>> {
    match phase {
        Some(PostGamePhase::NameEntry(n)) => Some(n@),
        _ => None,
    }
}

/// Whether the game-over screen, shown since `ended_at`, has been up for
/// `END_SCREEN_LOCK_NS` at `now`.
pub open spec fn lock_passed(ended_at: Option<u64>, now: u64) -> bool {
    match ended_at {
        Some(t) => now >= t + END_SCREEN_LOCK_NS,
        None => false,
    }
}

/// The Unicode control characters (general category `Cc`).
pub open spec fn is_control_char(c: char) -> bool {
    let u = c as u32;
    u <= 0x1f || (0x7f <= u && u <= 0x9f)
}

/// The name a score is filed under: the typed name trimmed, or `Anonymous`
/// when nothing but white space was typed.
pub open spec fn final_name_of(name: Seq<char>) -> Seq<char> {
    if trimmed(name).len() == 0 {
        "Anonymous"@
    } else {
        trimmed(name)
    }
}

/// Whether `c` is a control character (general category `Cc`).
pub fn char_is_control(c: char) -> (r: bool)
    ensures
        r == is_control_char(c),
{
    let u = c as u32;
    u <= 0x1f || (0x7f <= u && u <= 0x9f)
}

/// The name filed on the board: `Anonymous` for a name of nothing but white
/// space; otherwise the typed name from its first to its last character that
/// is not white space, every character in between kept, in order.
pub proof fn lemma_filed_name(name: Seq<char>)
    ensures
        all_white_space(name) ==> final_name_of(name) == "Anonymous"@,
        !all_white_space(name) ==> exists|a: int, b: int|
            0 <= a < b <= name.len() && final_name_of(name) == name.subrange(a, b)
                && !is_white_space(#[trigger] name[a]) && !is_white_space(#[trigger] name[b - 1])
                && (forall|j: int| 0 <= j < a ==> is_white_space(#[trigger] name[j])) && (forall|
                j: int,
            |
                b <= j < name.len() ==> is_white_space(#[trigger] name[j])),
{
    let ends = lemma_trimmed_is_the_core(name);
    if !all_white_space(name) {
        assert(trimmed(name).len() > 0);
        let a = ends.0;
        let b = ends.1;
        assert(!is_white_space(name[a]) && !is_white_space(name[b - 1]));
    }
}

/// `String::pop`: removes the last character, if there is one.
#[verifier::external_body]
fn string_pop(s: &mut String)
    ensures
        final(s)@ == if old(s)@.len() > 0 {
            old(s)@.drop_last()
        } else {
            old(s)@
        },
{
    s.pop();
}

/// The direction a key turns the snake to: arrows, WASD or HJKL.
pub fn direction_for_key(key: Key) -> (d: Option<Direction>)
    ensures
        d == direction_of(key),
{
    match key {
        Key::Up | Key::Char('k') | Key::Char('w') => Some(Direction::Up),
        Key::Down | Key::Char('j') | Key::Char('s') => Some(Direction::Down),
        Key::Left | Key::Char('h') | Key::Char('a') => Some(Direction::Left),
        Key::Right | Key::Char('l') | Key::Char('d') => Some(Direction::Right),
        _ => None,
    }
}

/// The name a score is filed under.
pub fn final_name(name: &str) -> (r: String)
    ensures
        r@ == final_name_of(name@),
{
    let t = trim(name);
    if t.is_empty() {
        String::from_str("Anonymous")
    } else {
        String::from_str(t)
    }
}

impl Session {
    /// A session before the first game: nothing buffered, no game played.
    pub fn new() -> (s: Self)
        ensures
            s.pending_moves@ == Seq::<Direction>::empty(),
            s.post_game is None,
            s.game_start is None,
            s.ended_at is None,
    {
        Session { pending_moves: VecDeque::new(), post_game: None, game_start: None, ended_at: None }
    }

    /// Whether a typed name is within the board's name length.
    pub open spec fn name_fits(&self) -> bool {
        self.post_game matches Some(PostGamePhase::NameEntry(n)) ==> n@.len() <= MAX_NAME_LEN
    }

    /// Handles a key. While a name is entered, keys edit it (at most
    /// `MAX_NAME_LEN` characters, no control characters) and Enter submits
    /// it; on the board, a direction starts a new game; otherwise a
    /// direction is buffered, at most `MAX_PENDING_MOVES` of them. Esc quits.
    pub fn on_key(&mut self, key: Key) -> (r: KeyAction)
        ensures
            final(self).game_start == old(self).game_start,
            final(self).ended_at == old(self).ended_at,
            old(self).name_fits() ==> final(self).name_fits(),
            key == Key::Esc ==> r == KeyAction::Quit && *final(self) == *old(self),
            match old(self).post_game {
                Some(PostGamePhase::NameEntry(name)) => match key {
                    Key::Esc => true,
                    Key::Enter => r matches KeyAction::Submit(s) && s@ == final_name_of(name@)
                        && *final(self) == *old(self),
                    Key::Backspace => r == KeyAction::Nothing
                        && final(self).pending_moves == old(self).pending_moves && typed_name(
                        final(self).post_game,
                    ) == Some(
                        if name@.len() > 0 {
                            name@.drop_last()
                        } else {
                            name@
                        },
                    ),
                    Key::Char(c) => r == KeyAction::Nothing && if !is_control_char(c) && name@.len()
                        < MAX_NAME_LEN {
                        final(self).pending_moves == old(self).pending_moves && typed_name(
                            final(self).post_game,
                        ) == Some(name@.push(c))
                    } else {
                        *final(self) == *old(self)
                    },
                    _ => r == KeyAction::Nothing && *final(self) == *old(self),
                },
                Some(PostGamePhase::Scoreboard(_)) => key != Key::Esc ==> r == KeyAction::Nothing
                    && match direction_of(key) {
                    Some(d) => final(self).pending_moves@ == old(self).pending_moves@.push(d)
                        && final(self).post_game is None,
                    None => *final(self) == *old(self),
                },
                _ => key != Key::Esc ==> r == KeyAction::Nothing && final(self).post_game
                    == old(self).post_game && match direction_of(key) {
                    Some(d) => final(self).pending_moves@ == if old(self).pending_moves@.len()
                        < MAX_PENDING_MOVES {
                        old(self).pending_moves@.push(d)
                    } else {
                        old(self).pending_moves@
                    },
                    None => final(self).pending_moves == old(self).pending_moves,
                },
            },
    {
        if key == Key::Esc {
            return KeyAction::Quit;
        }
        let phase = self.post_game.take();
        match phase {
            Some(PostGamePhase::NameEntry(mut name)) => {
                match key {
                    Key::Enter => {
                        let r = KeyAction::Submit(final_name(name.as_str()));
                        self.post_game = Some(PostGamePhase::NameEntry(name));
                        r
                    },
                    Key::Backspace => {
                        string_pop(&mut name);
                        self.post_game = Some(PostGamePhase::NameEntry(name));
                        KeyAction::Nothing
                    },
                    Key::Char(c) => {
                        if !char_is_control(c) && name.as_str().unicode_len() < MAX_NAME_LEN {
                            string_push(&mut name, c);
                        }
                        self.post_game = Some(PostGamePhase::NameEntry(name));
                        KeyAction::Nothing
                    },
                    _ => {
                        self.post_game = Some(PostGamePhase::NameEntry(name));
                        KeyAction::Nothing
                    },
                }
            },
            Some(PostGamePhase::Scoreboard(scores)) => {
                match direction_for_key(key) {
                    Some(d) => {
                        self.pending_moves.push_back(d);
                    },
                    None => {
                        self.post_game = Some(PostGamePhase::Scoreboard(scores));
                    },
                }
                KeyAction::Nothing
            },
            other => {
                self.post_game = other;
                match direction_for_key(key) {
                    Some(d) => {
                        if self.pending_moves.len() < MAX_PENDING_MOVES {
                            self.pending_moves.push_back(d);
                        }
                    },
                    None => {},
                }
                KeyAction::Nothing
            },
        }
    }

    /// The buffered turn to apply before the next step, taken from the
    /// front of the buffer; none while a finished game waits on its
    /// post-game screens.
    pub fn next_move(&mut self, prev_state: GameState) -> (d: Option<Direction>)
        ensures
            final(self).post_game == old(self).post_game,
            final(self).game_start == old(self).game_start,
            final(self).ended_at == old(self).ended_at,
            if (prev_state != GameState::Ended || old(self).post_game is None)
                && old(self).pending_moves@.len() > 0 {
                d == Some(old(self).pending_moves@[0]) && final(self).pending_moves@
                    == old(self).pending_moves@.drop_first()
            } else {
                d is None && final(self).pending_moves@ == old(self).pending_moves@
            },
    {
        if prev_state != GameState::Ended || self.post_game.is_none() {
            let d = self.pending_moves.pop_front();
            proof {
                if old(self).pending_moves@.len() > 0 {
                    assert(old(self).pending_moves@.subrange(1, old(self).pending_moves@.len() as int)
                        =~= old(self).pending_moves@.drop_first());
                }
            }
            d
        } else {
            None
        }
    }

    /// Follows the game from `prev` to `state` at time `now`: a game that
    /// starts clears the last one's screens; a game that ends shows the
    /// game-over screen. Returns whether that screen has been up for
    /// `END_SCREEN_LOCK_NS`, so that the board is due.
    pub fn after_step(&mut self, prev: GameState, state: GameState, now: u64) -> (board_due: bool)
        ensures
            final(self).pending_moves == old(self).pending_moves,
            prev != GameState::Started && state == GameState::Started ==> final(self).game_start
                == Some(now) && final(self).ended_at is None && final(self).post_game is None,
            prev == GameState::Started && state == GameState::Ended ==> final(self).game_start
                == old(self).game_start && final(self).ended_at == Some(now)
                && final(self).post_game == Some(PostGamePhase::Cooldown),
            !(prev != GameState::Started && state == GameState::Started) && !(prev
                == GameState::Started && state == GameState::Ended) ==> *final(self) == *old(self),
            board_due == (final(self).post_game == Some(PostGamePhase::Cooldown) && lock_passed(
                final(self).ended_at,
                now,
            )),
    {
        if prev != GameState::Started && state == GameState::Started {
            self.game_start = Some(now);
            self.ended_at = None;
            self.post_game = None;
        }
        if prev == GameState::Started && state == GameState::Ended {
            self.ended_at = Some(now);
            self.post_game = Some(PostGamePhase::Cooldown);
        }
        match (&self.post_game, self.ended_at) {
            (Some(PostGamePhase::Cooldown), Some(t)) => now >= t && now - t >= END_SCREEN_LOCK_NS,
            _ => false,
        }
    }

    /// Once the game-over screen has been up long enough: name entry when
    /// `points` earns a spot on the stored board, else the board itself.
    pub fn open_board(&mut self, scores: Vec<HighScoreEntry>, points: u16)
        ensures
            final(self).pending_moves == old(self).pending_moves,
            final(self).game_start == old(self).game_start,
            final(self).ended_at == old(self).ended_at,
            earns_spot(scores@, points) ==> typed_name(final(self).post_game) == Some(
                Seq::<char>::empty(),
            ),
            !earns_spot(scores@, points) ==> final(self).post_game == Some(
                PostGamePhase::Scoreboard(scores),
            ),
            final(self).name_fits(),
    {
        if qualifies(&scores, points) {
            self.post_game = Some(PostGamePhase::NameEntry(String::new()));
        } else {
            self.post_game = Some(PostGamePhase::Scoreboard(scores));
        }
    }

    /// Shows the board after a score was filed.
    pub fn show_scoreboard(&mut self, scores: Vec<HighScoreEntry>)
        ensures
            final(self).pending_moves == old(self).pending_moves,
            final(self).game_start == old(self).game_start,
            final(self).ended_at == old(self).ended_at,
            final(self).post_game == Some(PostGamePhase::Scoreboard(scores)),
    {
        self.post_game = Some(PostGamePhase::Scoreboard(scores));
    }

    /// The screen for the game in `state`: the menu before the first move,
    /// the field while playing, and after the game the name entry, the board
    /// or the game-over screen with the game's length.
    pub fn screen(&self, state: GameState) -> (s: Screen)
        ensures
            s == match state {
                GameState::Starting => Screen::MainMenu,
                GameState::Started => Screen::Playing,
                GameState::Ended => match self.post_game {
                    Some(PostGamePhase::NameEntry(_)) => Screen::NameEntry,
                    Some(PostGamePhase::Scoreboard(_)) => Screen::Scoreboard,
                    _ => Screen::EndMenu {
                        survived_ns: match (self.game_start, self.ended_at) {
                            (Some(start), Some(end)) => if end >= start {
                                (end - start) as u64
                            } else {
                                0
                            },
                            _ => 0,
                        },
                    },
                },
            },
    {
        match state {
            GameState::Starting => Screen::MainMenu,
            GameState::Started => Screen::Playing,
            GameState::Ended => match &self.post_game {
                Some(PostGamePhase::NameEntry(_)) => Screen::NameEntry,
                Some(PostGamePhase::Scoreboard(_)) => Screen::Scoreboard,
                _ => {
                    let survived_ns = match (self.game_start, self.ended_at) {
                        (Some(start), Some(end)) => end.saturating_sub(start),
                        _ => 0,
                    };
                    Screen::EndMenu { survived_ns }
                },
            },
        }
    }
}

} // verus!
