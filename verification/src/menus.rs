//! The game's text screens: main menu, game over, name entry and the high
//! score board.
use vstd::prelude::*;

use crate::highscore::HighScoreEntry;
use crate::text::{decimal, decimal_text};
use crate::tui::{
    border_draws, can_center, can_draw_borders, cell_draws, centered_column, has_inner,
    inner_area, inside, lemma_contains_concat, text_draws, DrawModel, Renderer, StyledChar,
    Window, WindowModel,
};

verus! {

broadcast use vstd::seq_lib::group_seq_properties;

/// Longest name shown on the score board.
pub const MAX_NAME_LEN: usize = 8;

/// `w` with the given title.
pub open spec fn titled(w: WindowModel, title: Seq<char>) -> WindowModel {
    WindowModel { title: Some(title), ..w }
}

/// What printing `s` centered on row `y` of `w` queues.
pub open spec fn centered_draws(w: WindowModel, size: (u16, u16), y: u16, s: Seq<char>) -> Seq<
    DrawModel,
> {
    text_draws(size, centered_column(w, s), y + w.pos.y, s)
}

impl Window {
    /// Whether `s` can be centered on row `y` without leaving the range of
    /// terminal coordinates.
    pub fn can_center_str(&self, y: u16, s: &str) -> (r: bool)
        ensures
            r == can_center(self@, y, s@),
    {
        let half = (s.unicode_len() / 2) as u16;
        let mid = self.size().x / 2;
        if half > mid {
            return false;
        }
        let col = (mid - half) as u32 + self.pos().x as u32;
        col <= u16::MAX as u32 && y as u32 + self.pos().y as u32 <= u16::MAX as u32
    }

    /// Whether the border, with `title` as the title, can be drawn without
    /// leaving the range of terminal coordinates.
    pub fn borders_fit_with_title(&self, title: &str) -> (r: bool)
        ensures
            r == can_draw_borders(titled(self@, title@)),
    {
        let mut text = String::from_str("[ ");
        text.append(title);
        text.append(" ]");
        self.pos().x as u32 + self.size().x as u32 <= u16::MAX as u32 && self.pos().y as u32
            + self.size().y as u32 <= u16::MAX as u32 && self.can_center_str(0, text.as_str())
    }
}

/// The lines of the main menu, with their rows.
pub open spec fn main_menu_fits(w: WindowModel) -> bool {
    let t = titled(w, "Snake"@);
    &&& can_draw_borders(t)
    &&& can_center(t, 2, "Snake game in the terminal"@)
    &&& can_center(t, 3, "written in Rust"@)
    &&& can_center(t, 5, "Use arrow keys ← → ↑ ↓, WASD or HJKL to move"@)
    &&& can_center(t, 7, "Press ESC to exit"@)
}

/// Whether the main menu can be drawn in `window`.
pub fn main_menu_fits_in(window: &Window) -> (r: bool)
    ensures
        r == main_menu_fits(window@),
{
    let ghost t = titled(window@, "Snake"@);
    if !window.borders_fit_with_title("Snake") {
        return false;
    }
    let mut probe = Window::new(window.pos().x, window.pos().y, window.size().x, window.size().y);
    probe.set_title("Snake");
    assert(probe@ == t);
    probe.can_center_str(2, "Snake game in the terminal") && probe.can_center_str(
        3,
        "written in Rust",
    ) && probe.can_center_str(5, "Use arrow keys ← → ↑ ↓, WASD or HJKL to move")
        && probe.can_center_str(7, "Press ESC to exit")
}

/// Draws the main menu.
pub fn draw_main_menu(window: &mut Window, renderer: &mut Renderer)
    requires
        main_menu_fits(old(window)@),
    ensures
        final(window)@ == titled(old(window)@, "Snake"@),
        final(renderer)@.size == old(renderer)@.size,
        final(renderer)@.queue == old(renderer)@.queue + border_draws(
            final(window)@,
            old(renderer)@.size,
        ) + centered_draws(final(window)@, old(renderer)@.size, 2, "Snake game in the terminal"@)
            + centered_draws(final(window)@, old(renderer)@.size, 3, "written in Rust"@)
            + centered_draws(
            final(window)@,
            old(renderer)@.size,
            5,
            "Use arrow keys ← → ↑ ↓, WASD or HJKL to move"@,
        ) + centered_draws(final(window)@, old(renderer)@.size, 7, "Press ESC to exit"@),
{
    window.set_title("Snake");
    window.draw_borders(renderer);
    window.print_centered_str(renderer, 2, "Snake game in the terminal");
    window.print_centered_str(renderer, 3, "written in Rust");
    window.print_centered_str(renderer, 5, "Use arrow keys ← → ↑ ↓, WASD or HJKL to move");
    window.print_centered_str(renderer, 7, "Press ESC to exit");
}

/// "You ate {points} apples".
pub open spec fn apples_line(points: u16) -> Seq<char> {
    "You ate "@ + decimal(points as nat) + " apples"@
}

/// "You survived {seconds}s".
pub open spec fn survived_line(seconds: Seq<char>) -> Seq<char> {
    "You survived "@ + seconds + "s"@
}

fn apples_text(points: u16) -> (s: String)
    ensures
        s@ == apples_line(points),
{
    let mut s = String::from_str("You ate ");
    let n = decimal_text(points as u128);
    s.append(n.as_str());
    s.append(" apples");
    s
}

/// Whether the game-over screen can be drawn in `w`.
pub open spec fn end_menu_fits(w: WindowModel, points: u16, seconds: Seq<char>) -> bool {
    let t = titled(w, "Game Over"@);
    &&& can_draw_borders(t)
    &&& can_center(t, 2, apples_line(points))
    &&& can_center(t, 3, survived_line(seconds))
    &&& can_center(t, 5, "Use arrow keys ← → ↑ ↓, WASD or HJKL to restart"@)
}

/// Whether the game-over screen can be drawn in `window`.
pub fn end_menu_fits_in(window: &Window, points: u16, seconds: &str) -> (r: bool)
    ensures
        r == end_menu_fits(window@, points, seconds@),
{
    if !window.borders_fit_with_title("Game Over") {
        return false;
    }
    let mut probe = Window::new(window.pos().x, window.pos().y, window.size().x, window.size().y);
    probe.set_title("Game Over");
    assert(probe@ == titled(window@, "Game Over"@));
    let p = apples_text(points);
    let mut d = String::from_str("You survived ");
    d.append(seconds);
    d.append("s");
    probe.can_center_str(2, p.as_str()) && probe.can_center_str(3, d.as_str())
        && probe.can_center_str(5, "Use arrow keys ← → ↑ ↓, WASD or HJKL to restart")
}

/// Draws the game-over screen: apples eaten and the time survived
/// (`seconds`, already formatted).
pub fn draw_end_menu(window: &mut Window, renderer: &mut Renderer, points: u16, seconds: &str)
    requires
        end_menu_fits(old(window)@, points, seconds@),
    ensures
        final(window)@ == titled(old(window)@, "Game Over"@),
        final(renderer)@.size == old(renderer)@.size,
        final(renderer)@.queue == old(renderer)@.queue + border_draws(
            final(window)@,
            old(renderer)@.size,
        ) + centered_draws(final(window)@, old(renderer)@.size, 2, apples_line(points))
            + centered_draws(final(window)@, old(renderer)@.size, 3, survived_line(seconds@))
            + centered_draws(
            final(window)@,
            old(renderer)@.size,
            5,
            "Use arrow keys ← → ↑ ↓, WASD or HJKL to restart"@,
        ),
{
    window.set_title("Game Over");
    window.draw_borders(renderer);
    let p = apples_text(points);
    let mut d = String::from_str("You survived ");
    d.append(seconds);
    d.append("s");
    window.print_centered_str(renderer, 2, p.as_str());
    window.print_centered_str(renderer, 3, d.as_str());
    window.print_centered_str(renderer, 5, "Use arrow keys ← → ↑ ↓, WASD or HJKL to restart");
}

/// Whether the name entry screen can be drawn in `w`.
pub open spec fn name_entry_fits(w: WindowModel, points: u16, name: Seq<char>) -> bool {
    let t = titled(w, "Game Over"@);
    &&& can_draw_borders(t)
    &&& can_center(t, 2, apples_line(points))
    &&& can_center(t, 4, "Enter your name for the high score board:"@)
    &&& can_center(t, 6, name + "_"@)
    &&& can_center(t, 8, "Press Enter to confirm"@)
}

/// Whether the name entry screen can be drawn in `window`.
pub fn name_entry_fits_in(window: &Window, points: u16, name: &str) -> (r: bool)
    ensures
        r == name_entry_fits(window@, points, name@),
{
    if !window.borders_fit_with_title("Game Over") {
        return false;
    }
    let mut probe = Window::new(window.pos().x, window.pos().y, window.size().x, window.size().y);
    probe.set_title("Game Over");
    assert(probe@ == titled(window@, "Game Over"@));
    let p = apples_text(points);
    let mut shown = String::from_str(name);
    shown.append("_");
    probe.can_center_str(2, p.as_str()) && probe.can_center_str(
        4,
        "Enter your name for the high score board:",
    ) && probe.can_center_str(6, shown.as_str()) && probe.can_center_str(
        8,
        "Press Enter to confirm",
    )
}

/// Draws the name entry screen, the name typed so far followed by a cursor.
pub fn draw_name_entry(window: &mut Window, renderer: &mut Renderer, points: u16, name: &str)
    requires
        name_entry_fits(old(window)@, points, name@),
    ensures
        final(window)@ == titled(old(window)@, "Game Over"@),
        final(renderer)@.size == old(renderer)@.size,
        final(renderer)@.queue == old(renderer)@.queue + border_draws(
            final(window)@,
            old(renderer)@.size,
        ) + centered_draws(final(window)@, old(renderer)@.size, 2, apples_line(points))
            + centered_draws(
            final(window)@,
            old(renderer)@.size,
            4,
            "Enter your name for the high score board:"@,
        ) + centered_draws(final(window)@, old(renderer)@.size, 6, name@ + "_"@)
            + centered_draws(final(window)@, old(renderer)@.size, 8, "Press Enter to confirm"@),
{
    window.set_title("Game Over");
    window.draw_borders(renderer);
    let p = apples_text(points);
    window.print_centered_str(renderer, 2, p.as_str());
    window.print_centered_str(renderer, 4, "Enter your name for the high score board:");
    let mut shown = String::from_str(name);
    shown.append("_");
    window.print_centered_str(renderer, 6, shown.as_str());
    window.print_centered_str(renderer, 8, "Press Enter to confirm");
}

/// The first `max` characters of `s`, or all of it when it is no longer.
pub fn truncate(s: &str, max: usize) -> (r: String)
    ensures
        r@ == if s@.len() > max {
            s@.take(max as int)
        } else {
            s@
        },
{
    let n = s.unicode_len();
    if n > max {
        String::from_str(s.substring_char(0, max))
    } else {
        assert(s@.subrange(0, n as int) =~= s@);
        String::from_str(s)
    }
}

/// `n` spaces.
pub open spec fn spaces(n: int) -> Seq<char> {
    Seq::new(n as nat, |i: int| ' ')
}

/// `s` right-aligned in a field of `width` characters.
pub open spec fn pad_left(s: Seq<char>, width: int) -> Seq<char> {
    if s.len() < width {
        spaces(width - s.len()) + s
    } else {
        s
    }
}

/// `s` left-aligned in a field of `width` characters.
pub open spec fn pad_right(s: Seq<char>, width: int) -> Seq<char> {
    if s.len() < width {
        s + spaces(width - s.len())
    } else {
        s
    }
}

/// The first `max` characters of `s`.
pub open spec fn cut(s: Seq<char>, max: int) -> Seq<char> {
    if s.len() > max {
        s.take(max)
    } else {
        s
    }
}

/// The board line of the entry at `index`: place, name, score, color, speed
/// (`speed`, already formatted) and date, in fixed-width fields.
pub open spec fn score_row(index: int, e: HighScoreEntry, speed: Seq<char>) -> Seq<char> {
    pad_left(decimal((index + 1) as nat), 2) + ". "@ + pad_right(cut(e.name@, MAX_NAME_LEN as int), 8)
        + " "@ + pad_left(decimal(e.score as nat), 3) + "pts "@ + pad_right(e.color@, 7) + " "@
        + speed + "Hz "@ + e.date@
}

fn push_spaces(s: &mut String, n: usize)
    ensures
        final(s)@ == old(s)@ + spaces(n as int),
{
    let mut k: usize = 0;
    proof {
        reveal_strlit(" ");
    }
    assert(old(s)@ + spaces(0) =~= old(s)@);
    while k < n
        invariant
            k <= n,
            s@ == old(s)@ + spaces(k as int),
            " "@ == seq![' '],
        decreases n - k,
    {
        s.append(" ");
        assert(old(s)@ + spaces(k as int) + seq![' '] =~= old(s)@ + spaces(k + 1));
        k = k + 1;
    }
}

fn push_left_aligned(s: &mut String, field: &str, width: usize)
    ensures
        final(s)@ == old(s)@ + pad_right(field@, width as int),
{
    s.append(field);
    let n = field.unicode_len();
    if n < width {
        push_spaces(s, width - n);
        assert(old(s)@ + field@ + spaces(width - n) =~= old(s)@ + (field@ + spaces(width - n)));
    }
}

fn push_right_aligned(s: &mut String, field: &str, width: usize)
    ensures
        final(s)@ == old(s)@ + pad_left(field@, width as int),
{
    let n = field.unicode_len();
    if n < width {
        push_spaces(s, width - n);
    }
    s.append(field);
    assert(n < width ==> old(s)@ + spaces(width - n) + field@ =~= old(s)@ + (spaces(width - n)
        + field@));
}

/// The board line of the entry at `index`, with its speed already formatted.
pub fn format_score_row(index: usize, e: &HighScoreEntry, speed: &str) -> (row: String)
    ensures
        row@ == score_row(index as int, *e, speed@),
{
    let mut row = String::new();
    let place = decimal_text(index as u128 + 1);
    push_right_aligned(&mut row, place.as_str(), 2);
    row.append(". ");
    let name = truncate(e.name.as_str(), MAX_NAME_LEN);
    push_left_aligned(&mut row, name.as_str(), 8);
    row.append(" ");
    let score = decimal_text(e.score as u128);
    push_right_aligned(&mut row, score.as_str(), 3);
    row.append("pts ");
    push_left_aligned(&mut row, e.color.as_str(), 7);
    row.append(" ");
    row.append(speed);
    row.append("Hz ");
    row.append(e.date.as_str());
    assert(row@ =~= score_row(index as int, *e, speed@));
    row
}

/// What the board rows 0 up to (not including) `n` queue.
pub open spec fn score_rows_draws(
    w: WindowModel,
    size: (u16, u16),
    scores: Seq<HighScoreEntry>,
    speeds: Seq<Seq<char>>,
    n: int,
) -> Seq<DrawModel>
    decreases n,
{
    if n <= 0 {
        Seq::empty()
    } else {
        score_rows_draws(w, size, scores, speeds, n - 1) + text_draws(
            size,
            2 + w.pos.x,
            ((n - 1 + 2) as u16) + w.pos.y,
            score_row(n - 1, scores[n - 1], speeds[n - 1]),
        )
    }
}

/// The line the entry at `index` is shown as: its row text, from column 2
/// of the window on row `index + 2`, cut at the terminal's right edge.
pub open spec fn entry_line(
    w: WindowModel,
    size: (u16, u16),
    scores: Seq<HighScoreEntry>,
    speeds: Seq<Seq<char>>,
    index: int,
) -> DrawModel {
    let x = 2 + w.pos.x;
    let text = score_row(index, scores[index], speeds[index]);
    DrawModel::Text {
        x: x as u16,
        y: (((index + 2) as u16) + w.pos.y) as u16,
        text: if text.len() > size.0 - x {
            text.take(size.0 - x)
        } else {
            text
        },
    }
}

/// Whether the line of the entry at `index` starts on the terminal.
pub open spec fn entry_line_shown(w: WindowModel, size: (u16, u16), index: int) -> bool {
    inside(size, 2 + w.pos.x, ((index + 2) as u16) + w.pos.y)
}

proof fn lemma_rows_cover(
    w: WindowModel,
    size: (u16, u16),
    scores: Seq<HighScoreEntry>,
    speeds: Seq<Seq<char>>,
    n: int,
    i: int,
)
    requires
        0 <= i < n,
    ensures
        entry_line_shown(w, size, i) ==> score_rows_draws(w, size, scores, speeds, n).contains(
            entry_line(w, size, scores, speeds, i),
        ),
    decreases n,
{
    let prev = score_rows_draws(w, size, scores, speeds, n - 1);
    let last = text_draws(
        size,
        2 + w.pos.x,
        ((n - 1 + 2) as u16) + w.pos.y,
        score_row(n - 1, scores[n - 1], speeds[n - 1]),
    );
    let d = entry_line(w, size, scores, speeds, i);
    if entry_line_shown(w, size, i) {
        if i < n - 1 {
            lemma_rows_cover(w, size, scores, speeds, n - 1, i);
        } else {
            assert(last[0] == d);
        }
        lemma_contains_concat(prev, last, d);
    }
}

#[verifier::spinoff_prover]
proof fn lemma_rows_sound(
    w: WindowModel,
    size: (u16, u16),
    scores: Seq<HighScoreEntry>,
    speeds: Seq<Seq<char>>,
    n: int,
)
    ensures
        forall|k: int|
            #![trigger score_rows_draws(w, size, scores, speeds, n)[k]]
            0 <= k < score_rows_draws(w, size, scores, speeds, n).len() ==> exists|i: int|
                0 <= i < n && score_rows_draws(w, size, scores, speeds, n)[k] == #[trigger] entry_line(
                    w,
                    size,
                    scores,
                    speeds,
                    i,
                ),
        (forall|i: int| 0 <= i < n ==> #[trigger] entry_line_shown(w, size, i)) ==> {
            &&& score_rows_draws(w, size, scores, speeds, n).len() == if n > 0 {
                n
            } else {
                0
            }
            &&& forall|i: int|
                0 <= i < n ==> score_rows_draws(w, size, scores, speeds, n)[i] == #[trigger] entry_line(
                    w,
                    size,
                    scores,
                    speeds,
                    i,
                )
        },
    decreases n,
{
    if n > 0 {
        lemma_rows_sound(w, size, scores, speeds, n - 1);
        let prev = score_rows_draws(w, size, scores, speeds, n - 1);
        let last = text_draws(
            size,
            2 + w.pos.x,
            ((n - 1 + 2) as u16) + w.pos.y,
            score_row(n - 1, scores[n - 1], speeds[n - 1]),
        );
        let all = prev + last;
        assert(score_rows_draws(w, size, scores, speeds, n) == all);
        assert forall|k: int| #![trigger all[k]] 0 <= k < all.len() implies exists|i: int|
            0 <= i < n && all[k] == #[trigger] entry_line(w, size, scores, speeds, i) by {
            if k < prev.len() {
                assert(all[k] == prev[k]);
                let i = choose|i: int|
                    0 <= i < n - 1 && prev[k] == #[trigger] entry_line(w, size, scores, speeds, i);
                assert(all[k] == entry_line(w, size, scores, speeds, i));
            } else {
                assert(all[k] == last[k - prev.len()]);
                assert(all[k] == entry_line(w, size, scores, speeds, n - 1));
            }
        }
        if forall|i: int| 0 <= i < n ==> #[trigger] entry_line_shown(w, size, i) {
            assert(entry_line_shown(w, size, n - 1));
            assert forall|i: int| 0 <= i < n - 1 implies #[trigger] entry_line_shown(w, size, i) by {
                assert(entry_line_shown(w, size, i));
            }
            assert forall|i: int| 0 <= i < n implies all[i] == #[trigger] entry_line(
                w,
                size,
                scores,
                speeds,
                i,
            ) by {
                if i < n - 1 {
                    assert(all[i] == prev[i]);
                } else {
                    assert(all[i] == last[0]);
                }
            }
        }
    }
}

/// Every entry of the board gets its own line, in place: the line of the
/// entry at index `i` (its place, name, score, color, speed and date) is
/// queued on row `i + 2` of the window, from column 2, wherever it starts on
/// the terminal; nothing else is queued for the entries; and when every
/// line starts on the terminal, exactly one line per entry is queued, in
/// order.
#[verifier::spinoff_prover]
pub proof fn lemma_every_entry_has_its_line(
    w: WindowModel,
    size: (u16, u16),
    scores: Seq<HighScoreEntry>,
    speeds: Seq<Seq<char>>,
)
    ensures
        forall|i: int|
            0 <= i < scores.len() && entry_line_shown(w, size, i) ==> score_rows_draws(
                w,
                size,
                scores,
                speeds,
                scores.len() as int,
            ).contains(#[trigger] entry_line(w, size, scores, speeds, i)),
        forall|k: int|
            #![trigger score_rows_draws(w, size, scores, speeds, scores.len() as int)[k]]
            0 <= k < score_rows_draws(w, size, scores, speeds, scores.len() as int).len()
                ==> exists|i: int|
                0 <= i < scores.len() && score_rows_draws(
                    w,
                    size,
                    scores,
                    speeds,
                    scores.len() as int,
                )[k] == #[trigger] entry_line(w, size, scores, speeds, i),
        (forall|i: int| 0 <= i < scores.len() ==> #[trigger] entry_line_shown(w, size, i)) ==> {
            &&& score_rows_draws(w, size, scores, speeds, scores.len() as int).len() == scores.len()
            &&& forall|i: int|
                0 <= i < scores.len() ==> score_rows_draws(
                    w,
                    size,
                    scores,
                    speeds,
                    scores.len() as int,
                )[i] == #[trigger] entry_line(w, size, scores, speeds, i)
        },
{
    assert forall|i: int|
        0 <= i < scores.len() && entry_line_shown(w, size, i) implies score_rows_draws(
        w,
        size,
        scores,
        speeds,
        scores.len() as int,
    ).contains(#[trigger] entry_line(w, size, scores, speeds, i)) by {
        lemma_rows_cover(w, size, scores, speeds, scores.len() as int, i);
    }
    let n = scores.len() as int;
    let rows = score_rows_draws(w, size, scores, speeds, n);
    lemma_rows_sound(w, size, scores, speeds, n);
    assert forall|k: int| #![trigger rows[k]] 0 <= k < rows.len() implies exists|i: int|
        0 <= i < scores.len() && rows[k] == #[trigger] entry_line(w, size, scores, speeds, i) by {
        assert(exists|i: int|
            0 <= i < n && rows[k] == #[trigger] entry_line(w, size, scores, speeds, i));
        let i = choose|i: int|
            0 <= i < n && rows[k] == #[trigger] entry_line(w, size, scores, speeds, i);
        assert(0 <= i < scores.len() && rows[k] == entry_line(w, size, scores, speeds, i));
    }
}

/// The row of the board's footer: below the entries, or below the "no
/// scores" line.
pub open spec fn footer_row(count: int) -> int {
    (if count > 1 {
        count
    } else {
        1
    }) as u16 + 3
}

/// The footer keeps one blank row below the board: it stands two rows below
/// the last entry's line (row `count + 1`), or below the "no scores" line
/// (row 2) when the board is empty.
pub proof fn lemma_footer_below_the_board(count: int)
    requires
        0 <= count,
        count + 3 <= u16::MAX,
    ensures
        footer_row(count) == (if count == 0 {
            2
        } else {
            count + 1
        }) + 2,
{
}

/// Whether the score board can be drawn in `w`.
pub open spec fn scoreboard_fits(w: WindowModel, count: int) -> bool {
    let t = titled(w, "High Scores"@);
    &&& can_draw_borders(t)
    &&& count == 0 ==> can_center(t, 2, "No scores yet"@)
    &&& 2 + w.pos.x <= u16::MAX
    &&& forall|i: int| 0 <= i < count ==> #[trigger] ((i + 2) as u16) + w.pos.y <= u16::MAX
    &&& footer_row(count) <= u16::MAX
    &&& can_center(t, footer_row(count) as u16, "Press an arrow key, WASD or HJKL to play again"@)
}

/// Whether the score board with `count` entries can be drawn in `window`.
pub fn scoreboard_fits_in(window: &Window, count: usize) -> (r: bool)
    ensures
        r == scoreboard_fits(window@, count as int),
{
    if !window.borders_fit_with_title("High Scores") {
        return false;
    }
    let mut probe = Window::new(window.pos().x, window.pos().y, window.size().x, window.size().y);
    probe.set_title("High Scores");
    assert(probe@ == titled(window@, "High Scores"@));
    if count == 0 && !probe.can_center_str(2, "No scores yet") {
        return false;
    }
    if window.pos().x as u32 + 2 > u16::MAX as u32 {
        return false;
    }
    let mut i: usize = 0;
    while i < count
        invariant
            i <= count,
            forall|j: int| 0 <= j < i ==> #[trigger] ((j + 2) as u16) + window@.pos.y <= u16::MAX,
        decreases count - i,
    {
        let row = (i as u128 + 2) as u16;
        if row as u32 + window.pos().y as u32 > u16::MAX as u32 {
            assert(((i + 2) as u16) + window@.pos.y > u16::MAX);
            return false;
        }
        i = i + 1;
    }
    let shown: usize = if count > 1 {
        count
    } else {
        1
    };
    let base = shown as u16;
    if base as u32 + 3 > u16::MAX as u32 {
        return false;
    }
    probe.can_center_str(base + 3, "Press an arrow key, WASD or HJKL to play again")
}

/// Draws the high score board: one line per entry (speeds already
/// formatted, one per entry), or a note that there are none, then a footer.
pub fn draw_scoreboard(
    window: &mut Window,
    renderer: &mut Renderer,
    scores: &Vec<HighScoreEntry>,
    speeds: &Vec<String>,
)
    requires
        speeds@.len() == scores@.len(),
        scoreboard_fits(old(window)@, scores@.len() as int),
    ensures
        final(window)@ == titled(old(window)@, "High Scores"@),
        final(renderer)@.size == old(renderer)@.size,
        final(renderer)@.queue == old(renderer)@.queue + border_draws(
            final(window)@,
            old(renderer)@.size,
        ) + (if scores@.len() == 0 {
            centered_draws(final(window)@, old(renderer)@.size, 2, "No scores yet"@)
        } else {
            score_rows_draws(
                final(window)@,
                old(renderer)@.size,
                scores@,
                speeds@.map_values(|s: String| s@),
                scores@.len() as int,
            )
        }) + centered_draws(
            final(window)@,
            old(renderer)@.size,
            footer_row(scores@.len() as int) as u16,
            "Press an arrow key, WASD or HJKL to play again"@,
        ),
{
    window.set_title("High Scores");
    window.draw_borders(renderer);
    let ghost w = window@;
    let ghost size = renderer@.size;
    let ghost start = renderer@.queue;
    let ghost sv = speeds@.map_values(|s: String| s@);
    if scores.len() == 0 {
        window.print_centered_str(renderer, 2, "No scores yet");
    } else {
        let mut i: usize = 0;
        assert(start + score_rows_draws(w, size, scores@, sv, 0) =~= start);
        while i < scores.len()
            invariant
                w == window@,
                renderer@.size == size,
                speeds@.len() == scores@.len(),
                sv == speeds@.map_values(|s: String| s@),
                scoreboard_fits(old(window)@, scores@.len() as int),
                w.pos == old(window)@.pos,
                i <= scores@.len(),
                renderer@.queue == start + score_rows_draws(w, size, scores@, sv, i as int),
            decreases scores@.len() - i,
        {
            let row = format_score_row(i, &scores[i], speeds[i].as_str());
            assert(((i + 2) as u16) + w.pos.y <= u16::MAX);
            let y = (i as u128 + 2) as u16;
            window.print_str(renderer, 2, y, row.as_str());
            i = i + 1;
        }
    }
    let shown: usize = if scores.len() > 1 {
        scores.len()
    } else {
        1
    };
    window.print_centered_str(renderer, shown as u16 + 3, "Press an arrow key, WASD or HJKL to play again");
}

/// The title of the playing screen: "Apples: {points}".
pub open spec fn apples_title(points: u16) -> Seq<char> {
    "Apples: "@ + decimal(points as nat)
}

/// What the tiles of one row queue, columns 0 up to (not including) `k`:
/// each tile is two cells wide, inside the border.
pub open spec fn tile_row_draws(
    inner: WindowModel,
    size: (u16, u16),
    row: Seq<StyledChar>,
    y: int,
    k: int,
) -> Seq<DrawModel>
    decreases k,
{
    if k <= 0 {
        Seq::empty()
    } else {
        tile_row_draws(inner, size, row, y, k - 1) + cell_draws(
            size,
            inner.pos.x + ((k - 1) as u16) * 2,
            inner.pos.y + (y as u16),
            row[k - 1],
        ) + cell_draws(
            size,
            inner.pos.x + ((k - 1) as u16) * 2 + 1,
            inner.pos.y + (y as u16),
            row[k - 1],
        )
    }
}

/// What the field queues, rows 0 up to (not including) `n`, each row as
/// wide as the first.
pub open spec fn field_draws(
    inner: WindowModel,
    size: (u16, u16),
    tiles: Seq<Seq<StyledChar>>,
    n: int,
) -> Seq<DrawModel>
    decreases n,
{
    if n <= 0 {
        Seq::empty()
    } else {
        field_draws(inner, size, tiles, n - 1) + tile_row_draws(
            inner,
            size,
            tiles[n - 1],
            n - 1,
            tiles[0].len() as int,
        )
    }
}

/// The cell that half `dd` (0 or 1) of the tile in row `yy`, column `xx`
/// of the field occupies inside `inner`, carrying that tile.
pub open spec fn tile_cell(
    inner: WindowModel,
    tiles: Seq<Seq<StyledChar>>,
    yy: int,
    xx: int,
    dd: int,
) -> DrawModel {
    DrawModel::Cell {
        x: (inner.pos.x + (xx as u16) * 2 + dd) as u16,
        y: (inner.pos.y + (yy as u16)) as u16,
        content: tiles[yy][xx],
    }
}

/// Whether `d` is one of the two cells of some tile of the field, at that
/// tile's own place.
pub open spec fn is_tile_cell(inner: WindowModel, tiles: Seq<Seq<StyledChar>>, d: DrawModel) -> bool {
    exists|yy: int, xx: int, dd: int|
        0 <= yy < tiles.len() && 0 <= xx < tiles[0].len() && 0 <= dd <= 1 && d == #[trigger] tile_cell(
            inner,
            tiles,
            yy,
            xx,
            dd,
        )
}

proof fn lemma_tile_row_covers(
    inner: WindowModel,
    size: (u16, u16),
    tiles: Seq<Seq<StyledChar>>,
    y: int,
    k: int,
    x: int,
    dd: int,
)
    requires
        0 <= x < k,
        0 <= dd <= 1,
    ensures
        inside(size, inner.pos.x + (x as u16) * 2 + dd, inner.pos.y + (y as u16))
            ==> tile_row_draws(inner, size, tiles[y], y, k).contains(
            tile_cell(inner, tiles, y, x, dd),
        ),
    decreases k,
{
    let prev = tile_row_draws(inner, size, tiles[y], y, k - 1);
    let a = cell_draws(size, inner.pos.x + ((k - 1) as u16) * 2, inner.pos.y + (y as u16), tiles[y][k - 1]);
    let b = cell_draws(size, inner.pos.x + ((k - 1) as u16) * 2 + 1, inner.pos.y + (y as u16), tiles[y][k - 1]);
    let d = tile_cell(inner, tiles, y, x, dd);
    assert(tile_row_draws(inner, size, tiles[y], y, k) == prev + a + b);
    if inside(size, inner.pos.x + (x as u16) * 2 + dd, inner.pos.y + (y as u16)) {
        if x < k - 1 {
            lemma_tile_row_covers(inner, size, tiles, y, k - 1, x, dd);
            lemma_contains_concat(prev, a, d);
        } else if dd == 0 {
            assert(a[0] == d);
            lemma_contains_concat(prev, a, d);
        } else {
            assert(b[0] == d);
        }
        lemma_contains_concat(prev + a, b, d);
    }
}

proof fn lemma_field_covers(
    inner: WindowModel,
    size: (u16, u16),
    tiles: Seq<Seq<StyledChar>>,
    n: int,
    y: int,
    x: int,
    dd: int,
)
    requires
        0 <= y < n,
        0 <= x < tiles[0].len(),
        0 <= dd <= 1,
    ensures
        inside(size, inner.pos.x + (x as u16) * 2 + dd, inner.pos.y + (y as u16)) ==> field_draws(
            inner,
            size,
            tiles,
            n,
        ).contains(tile_cell(inner, tiles, y, x, dd)),
    decreases n,
{
    let prev = field_draws(inner, size, tiles, n - 1);
    let row = tile_row_draws(inner, size, tiles[n - 1], n - 1, tiles[0].len() as int);
    let d = tile_cell(inner, tiles, y, x, dd);
    if inside(size, inner.pos.x + (x as u16) * 2 + dd, inner.pos.y + (y as u16)) {
        if y < n - 1 {
            lemma_field_covers(inner, size, tiles, n - 1, y, x, dd);
        } else {
            lemma_tile_row_covers(inner, size, tiles, y, tiles[0].len() as int, x, dd);
        }
        lemma_contains_concat(prev, row, d);
    }
}

proof fn lemma_tile_row_sound(
    inner: WindowModel,
    size: (u16, u16),
    tiles: Seq<Seq<StyledChar>>,
    y: int,
    k: int,
)
    requires
        0 <= y < tiles.len(),
        k <= tiles[0].len(),
    ensures
        forall|i: int|
            0 <= i < tile_row_draws(inner, size, tiles[y], y, k).len() ==> is_tile_cell(
                inner,
                tiles,
                #[trigger] tile_row_draws(inner, size, tiles[y], y, k)[i],
            ),
    decreases k,
{
    if k > 0 {
        lemma_tile_row_sound(inner, size, tiles, y, k - 1);
        let prev = tile_row_draws(inner, size, tiles[y], y, k - 1);
        let a = cell_draws(size, inner.pos.x + ((k - 1) as u16) * 2, inner.pos.y + (y as u16), tiles[y][k - 1]);
        let b = cell_draws(size, inner.pos.x + ((k - 1) as u16) * 2 + 1, inner.pos.y + (y as u16), tiles[y][k - 1]);
        let all = prev + a + b;
        assert(tile_row_draws(inner, size, tiles[y], y, k) == all);
        assert forall|i: int| 0 <= i < all.len() implies is_tile_cell(inner, tiles, #[trigger] all[i]) by {
            if i < prev.len() {
                assert(all[i] == prev[i]);
            } else if i < prev.len() + a.len() {
                assert(all[i] == a[i - prev.len()]);
                assert(all[i] == tile_cell(inner, tiles, y, k - 1, 0));
            } else {
                assert(all[i] == b[i - prev.len() - a.len()]);
                assert(all[i] == tile_cell(inner, tiles, y, k - 1, 1));
            }
        }
    }
}

proof fn lemma_field_sound(inner: WindowModel, size: (u16, u16), tiles: Seq<Seq<StyledChar>>, n: int)
    requires
        n <= tiles.len(),
    ensures
        forall|i: int|
            0 <= i < field_draws(inner, size, tiles, n).len() ==> is_tile_cell(
                inner,
                tiles,
                #[trigger] field_draws(inner, size, tiles, n)[i],
            ),
    decreases n,
{
    if n > 0 {
        lemma_field_sound(inner, size, tiles, n - 1);
        lemma_tile_row_sound(inner, size, tiles, n - 1, tiles[0].len() as int);
        let prev = field_draws(inner, size, tiles, n - 1);
        let row = tile_row_draws(inner, size, tiles[n - 1], n - 1, tiles[0].len() as int);
        let all = prev + row;
        assert forall|i: int| 0 <= i < all.len() implies is_tile_cell(inner, tiles, #[trigger] all[i]) by {
            if i < prev.len() {
                assert(all[i] == prev[i]);
            } else {
                assert(all[i] == row[i - prev.len()]);
            }
        }
    }
}

/// The field is drawn in place: every tile, at row `y` and column `x` of
/// the field, fills the two cells at columns `2x` and `2x + 1` and row `y`
/// inside the border with that very tile (wherever they lie on the
/// terminal), and every cell the field draws is such a cell of some tile.
pub proof fn lemma_field_in_place(inner: WindowModel, size: (u16, u16), tiles: Seq<Seq<StyledChar>>)
    ensures
        forall|y: int, x: int, dd: int|
            0 <= y < tiles.len() && 0 <= x < tiles[0].len() && 0 <= dd <= 1 && inside(
                size,
                inner.pos.x + (x as u16) * 2 + dd,
                inner.pos.y + (y as u16),
            ) ==> field_draws(inner, size, tiles, tiles.len() as int).contains(
                #[trigger] tile_cell(inner, tiles, y, x, dd),
            ),
        forall|i: int|
            0 <= i < field_draws(inner, size, tiles, tiles.len() as int).len() ==> is_tile_cell(
                inner,
                tiles,
                #[trigger] field_draws(inner, size, tiles, tiles.len() as int)[i],
            ),
{
    assert forall|y: int, x: int, dd: int|
        0 <= y < tiles.len() && 0 <= x < tiles[0].len() && 0 <= dd <= 1 && inside(
            size,
            inner.pos.x + (x as u16) * 2 + dd,
            inner.pos.y + (y as u16),
        ) implies field_draws(inner, size, tiles, tiles.len() as int).contains(
        #[trigger] tile_cell(inner, tiles, y, x, dd),
    ) by {
        lemma_field_covers(inner, size, tiles, tiles.len() as int, y, x, dd);
    }
    lemma_field_sound(inner, size, tiles, tiles.len() as int);
}

/// Whether the two cells of column `x` stay in range inside `w`.
pub open spec fn column_fits(w: WindowModel, x: int) -> bool {
    (x as u16) < 32768 && inner_area(w).pos.x + (x as u16) * 2 + 1 <= u16::MAX
}

/// Whether row `y` stays in range inside `w`.
pub open spec fn row_fits(w: WindowModel, y: int) -> bool {
    inner_area(w).pos.y + (y as u16) <= u16::MAX
}

/// Whether row `y` of the field is at least as wide as the first.
pub open spec fn row_wide_enough(tiles: Seq<Seq<StyledChar>>, y: int) -> bool {
    tiles[y].len() >= tiles[0].len()
}

/// Whether the field fits inside the border of `w`: every row is as wide
/// as the first, and every cell's coordinates stay in range.
pub open spec fn field_fits(w: WindowModel, tiles: Seq<Seq<StyledChar>>) -> bool {
    tiles.len() > 0 && tiles[0].len() > 0 ==> {
        &&& has_inner(w)
        &&& forall|y: int| 0 <= y < tiles.len() ==> #[trigger] row_wide_enough(tiles, y)
        &&& forall|x: int| 0 <= x < tiles[0].len() ==> #[trigger] column_fits(w, x)
        &&& forall|y: int| 0 <= y < tiles.len() ==> #[trigger] row_fits(w, y)
    }
}

fn apples_title_text(points: u16) -> (s: String)
    ensures
        s@ == apples_title(points),
{
    let mut s = String::from_str("Apples: ");
    let n = decimal_text(points as u128);
    s.append(n.as_str());
    s
}

/// Whether the playing screen for `points` and the field `tiles` can be
/// drawn in `window`.
pub fn game_fits_in(window: &Window, points: u16, tiles: &Vec<Vec<StyledChar>>) -> (r: bool)
    ensures
        r == (can_draw_borders(titled(window@, apples_title(points))) && field_fits(
            window@,
            tiles@.map_values(|row: Vec<StyledChar>| row@),
        )),
{
    let ghost t = tiles@.map_values(|row: Vec<StyledChar>| row@);
    let title = apples_title_text(points);
    if !window.borders_fit_with_title(title.as_str()) {
        return false;
    }
    if tiles.len() == 0 || tiles[0].len() == 0 {
        return true;
    }
    let pos = window.pos();
    let size = window.size();
    if pos.x == u16::MAX || pos.y == u16::MAX || size.x < 2 || size.y < 2 {
        return false;
    }
    let width = tiles[0].len();
    let mut y: usize = 0;
    while y < tiles.len()
        invariant
            t == tiles@.map_values(|row: Vec<StyledChar>| row@),
            width == t[0].len(),
            width > 0,
            y <= t.len(),
            t.len() == tiles@.len(),
            forall|j: int| 0 <= j < y ==> #[trigger] row_wide_enough(t, j),
        decreases tiles@.len() - y,
    {
        if tiles[y].len() < width {
            assert(!row_wide_enough(t, y as int));
            return false;
        }
        y = y + 1;
    }
    let ix = pos.x + 1;
    let iy = pos.y + 1;
    let mut x: usize = 0;
    while x < width
        invariant
            t == tiles@.map_values(|row: Vec<StyledChar>| row@),
            t.len() > 0,
            width == t[0].len(),
            x <= width,
            ix == inner_area(window@).pos.x,
            forall|k: int| 0 <= k < x ==> #[trigger] column_fits(window@, k),
        decreases width - x,
    {
        let c = x as u16;
        if c >= 32768 || ix as u32 + c as u32 * 2 + 1 > u16::MAX as u32 {
            assert(!column_fits(window@, x as int));
            return false;
        }
        x = x + 1;
    }
    let mut y: usize = 0;
    while y < tiles.len()
        invariant
            t == tiles@.map_values(|row: Vec<StyledChar>| row@),
            t.len() > 0,
            t[0].len() > 0,
            y <= tiles@.len(),
            iy == inner_area(window@).pos.y,
            forall|k: int| 0 <= k < y ==> #[trigger] row_fits(window@, k),
        decreases tiles@.len() - y,
    {
        let c = y as u16;
        if iy as u32 + c as u32 > u16::MAX as u32 {
            assert(!row_fits(window@, y as int));
            return false;
        }
        y = y + 1;
    }
    true
}

/// Draws the playing screen: the apples eaten in the title, then each tile
/// of the field as two cells inside the border.
pub fn draw_game(
    window: &mut Window,
    renderer: &mut Renderer,
    points: u16,
    tiles: &Vec<Vec<StyledChar>>,
)
    requires
        can_draw_borders(titled(old(window)@, apples_title(points))),
        field_fits(old(window)@, tiles@.map_values(|row: Vec<StyledChar>| row@)),
    ensures
        final(window)@ == titled(old(window)@, apples_title(points)),
        final(renderer)@.size == old(renderer)@.size,
        final(renderer)@.queue == old(renderer)@.queue + border_draws(
            final(window)@,
            old(renderer)@.size,
        ) + field_draws(
            inner_area(final(window)@),
            old(renderer)@.size,
            tiles@.map_values(|row: Vec<StyledChar>| row@),
            tiles@.len() as int,
        ),
{
    let title = apples_title_text(points);
    window.set_title(title.as_str());
    window.draw_borders(renderer);
    let ghost t = tiles@.map_values(|row: Vec<StyledChar>| row@);
    let ghost w = window@;
    let ghost ow = old(window)@;
    let ghost inner = inner_area(w);
    assert(inner == inner_area(ow));
    let ghost size = renderer@.size;
    let ghost base = renderer@.queue;
    assert(base + field_draws(inner, size, t, 0) =~= base);
    let mut y: usize = 0;
    while y < tiles.len()
        invariant
            t == tiles@.map_values(|row: Vec<StyledChar>| row@),
            w == window@,
            inner == inner_area(w),
            inner == inner_area(ow),
            has_inner(w) == has_inner(ow),
            field_fits(ow, t),
            renderer@.size == size,
            y <= tiles@.len(),
            renderer@.queue == base + field_draws(inner, size, t, y as int),
        decreases tiles@.len() - y,
    {
        let ghost row_base = renderer@.queue;
        assert(row_base + tile_row_draws(inner, size, t[y as int], y as int, 0) =~= row_base);
        let mut x: usize = 0;
        while x < tiles[0].len()
            invariant
                t == tiles@.map_values(|row: Vec<StyledChar>| row@),
                w == window@,
                inner == inner_area(w),
                inner == inner_area(ow),
                has_inner(w) == has_inner(ow),
                field_fits(ow, t),
                renderer@.size == size,
                y < tiles@.len(),
                x <= t[0].len(),
                renderer@.queue == row_base + tile_row_draws(
                    inner,
                    size,
                    t[y as int],
                    y as int,
                    x as int,
                ),
            decreases t[0].len() - x,
        {
            assert(row_wide_enough(t, y as int));
            assert(column_fits(ow, x as int));
            assert(row_fits(ow, y as int));
            let c = tiles[y][x];
            let area = window.inner();
            let col = (x as u16) * 2;
            let row = y as u16;
            area.pixel_styled(renderer, col, row, c);
            area.pixel_styled(renderer, col + 1, row, c);
            x = x + 1;
        }
        y = y + 1;
    }
}

} // verus!
