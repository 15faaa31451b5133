//! The text UI: a renderer that clips drawing to the terminal and queues it,
//! and windows that place their drawing relative to their own position.
use vstd::prelude::*;

use crate::style::Color;

verus! {

broadcast use vstd::seq_lib::group_seq_properties;

/// A pair of terminal coordinates (column, row) or extents (width, height).
#[derive(Copy, Clone, Debug, PartialEq, Eq, Structural)]
pub struct Vec2 {
    pub x: u16,
    pub y: u16,
}

/// A character with optional foreground and background colors.
#[derive(Copy, Clone, Debug, PartialEq, Eq, Structural)]
pub struct StyledChar {
    pub ch: char,
    pub foreground: Option<Color>,
    pub background: Option<Color>,
}

impl StyledChar {
    /// A character without colors.
    pub fn plain(ch: char) -> (s: Self)
        ensures
            s == plain_char(ch),
    {
        StyledChar { ch, foreground: None, background: None }
    }
}

/// A character without colors.
pub open spec fn plain_char(ch: char) -> StyledChar {
    StyledChar { ch, foreground: None, background: None }
}

/// One queued terminal command.
#[derive(Clone, Debug, PartialEq)]
pub enum Draw {
    /// Print one styled character at a cell.
    Cell { x: u16, y: u16, content: StyledChar },
    /// Print text starting at a cell.
    Text { x: u16, y: u16, text: String },
    /// Clear the whole screen.
    Clear,
}

/// The mathematical value of a `Draw`.
pub enum DrawModel {
    Cell { x: u16, y: u16, content: StyledChar },
    Text { x: u16, y: u16, text: Seq<char> },
    Clear,
}

impl View for Draw {
    type V = DrawModel;

    open spec fn view(&self) -> DrawModel {
        match self {
            Draw::Cell { x, y, content } => DrawModel::Cell { x: *x, y: *y, content: *content },
            Draw::Text { x, y, text } => DrawModel::Text { x: *x, y: *y, text: text@ },
            Draw::Clear => DrawModel::Clear,
        }
    }
}

/// The values of a sequence of commands.
pub open spec fn draws_view(s: Seq<Draw>) -> Seq<DrawModel> {
    s.map_values(|d: Draw| d@)
}

/// The terminal size a renderer assumes and the commands it has queued.
pub struct RendererModel {
    pub size: (u16, u16),
    pub queue: Seq<DrawModel>,
}

/// Queues drawing for a terminal of a known size, clipping what falls
/// outside it; `present` hands the queue over to be written.
pub struct Renderer {
    term_size: (u16, u16),
    queue: Vec<Draw>,
}

impl View for Renderer {
    type V = RendererModel;

    closed spec fn view(&self) -> RendererModel {
        RendererModel { size: self.term_size, queue: draws_view(self.queue@) }
    }
}

/// What drawing one character at (`x`, `y`) queues: nothing outside the
/// terminal, else the character.
pub open spec fn cell_draws(size: (u16, u16), x: int, y: int, content: StyledChar) -> Seq<
    DrawModel,
> {
    if x >= size.0 || y >= size.1 {
        Seq::empty()
    } else {
        seq![DrawModel::Cell { x: x as u16, y: y as u16, content }]
    }
}

/// What printing `s` at (`x`, `y`) queues: nothing when the start is outside
/// the terminal, else the text cut so that it ends at the right edge.
pub open spec fn text_draws(size: (u16, u16), x: int, y: int, s: Seq<char>) -> Seq<DrawModel> {
    if x >= size.0 || y >= size.1 {
        Seq::empty()
    } else {
        let room = size.0 - x;
        seq![
            DrawModel::Text {
                x: x as u16,
                y: y as u16,
                text: if s.len() > room {
                    s.take(room)
                } else {
                    s
                },
            },
        ]
    }
}

/// Whether a command lies within a terminal of the given size: a cell
/// inside it, or text that starts inside and ends by the right edge.
pub open spec fn on_screen(size: (u16, u16), d: DrawModel) -> bool {
    match d {
        DrawModel::Cell { x, y, .. } => x < size.0 && y < size.1,
        DrawModel::Text { x, y, text } => x < size.0 && y < size.1 && x + text.len() <= size.0,
        DrawModel::Clear => true,
    }
}

/// Whatever a character or a text queues lies within the terminal: text
/// never runs past the right edge onto the next row.
pub proof fn lemma_drawing_stays_on_screen(
    size: (u16, u16),
    x: int,
    y: int,
    c: StyledChar,
    s: Seq<char>,
)
    requires
        0 <= x,
        0 <= y,
    ensures
        forall|i: int|
            0 <= i < cell_draws(size, x, y, c).len() ==> on_screen(
                size,
                #[trigger] cell_draws(size, x, y, c)[i],
            ),
        forall|i: int|
            0 <= i < text_draws(size, x, y, s).len() ==> on_screen(
                size,
                #[trigger] text_draws(size, x, y, s)[i],
            ),
{
}

impl Renderer {
    /// A renderer for a terminal of the measured size, 80 by 24 when the
    /// size could not be read.
    pub fn new(measured: Option<(u16, u16)>) -> (r: Self)
        ensures
            r@.size == match measured {
                Some(s) => s,
                None => (80u16, 24u16),
            },
            r@.queue == Seq::<DrawModel>::empty(),
    {
        let term_size = match measured {
            Some(s) => s,
            None => (80, 24),
        };
        let r = Renderer { term_size, queue: Vec::new() };
        assert(draws_view(r.queue@) =~= Seq::<DrawModel>::empty());
        r
    }

    /// Takes a newly measured size; a failed measurement keeps the old one.
    pub fn refresh_size(&mut self, measured: Option<(u16, u16)>)
        ensures
            final(self)@.size == match measured {
                Some(s) => s,
                None => old(self)@.size,
            },
            final(self)@.queue == old(self)@.queue,
    {
        if let Some(s) = measured {
            self.term_size = s;
        }
    }

    /// The middle of the terminal.
    pub fn center_point(&self) -> (c: (u16, u16))
        ensures
            c == ((self@.size.0 / 2) as u16, (self@.size.1 / 2) as u16),
    {
        (self.term_size.0 / 2, self.term_size.1 / 2)
    }

    fn enqueue(&mut self, d: Draw)
        ensures
            final(self)@.size == old(self)@.size,
            final(self)@.queue == old(self)@.queue.push(d@),
    {
        self.queue.push(d);
        assert(draws_view(self.queue@) =~= draws_view(old(self).queue@).push(d@));
    }

    /// Queues clearing the screen.
    pub fn clear(&mut self)
        ensures
            final(self)@.size == old(self)@.size,
            final(self)@.queue == old(self)@.queue.push(DrawModel::Clear),
    {
        self.enqueue(Draw::Clear);
    }

    /// Hands over the queued commands, in order, leaving the queue empty.
    pub fn present(&mut self) -> (cmds: Vec<Draw>)
        ensures
            draws_view(cmds@) == old(self)@.queue,
            final(self)@.size == old(self)@.size,
            final(self)@.queue == Seq::<DrawModel>::empty(),
    {
        let mut cmds: Vec<Draw> = Vec::new();
        core::mem::swap(&mut cmds, &mut self.queue);
        assert(draws_view(self.queue@) =~= Seq::<DrawModel>::empty());
        cmds
    }

    /// Draws a plain character; nothing outside the terminal.
    pub fn pixel(&mut self, x: u16, y: u16, c: char)
        ensures
            final(self)@.size == old(self)@.size,
            final(self)@.queue == old(self)@.queue + cell_draws(
                old(self)@.size,
                x as int,
                y as int,
                plain_char(c),
            ),
    {
        self.pixel_styled(x, y, StyledChar::plain(c));
    }

    /// Draws a styled character; nothing outside the terminal.
    pub fn pixel_styled(&mut self, x: u16, y: u16, c: StyledChar)
        ensures
            final(self)@.size == old(self)@.size,
            final(self)@.queue == old(self)@.queue + cell_draws(
                old(self)@.size,
                x as int,
                y as int,
                c,
            ),
    {
        if x >= self.term_size.0 || y >= self.term_size.1 {
            assert(old(self)@.queue + Seq::<DrawModel>::empty() =~= old(self)@.queue);
            return;
        }
        self.enqueue(Draw::Cell { x, y, content: c });
        assert(old(self)@.queue.push(DrawModel::Cell { x, y, content: c }) =~= old(self)@.queue
            + seq![DrawModel::Cell { x, y, content: c }]);
    }

    /// Prints `s` from (`x`, `y`), cut so that it cannot run past the right
    /// edge and wrap onto the next row; nothing when the start is outside.
    pub fn print_str(&mut self, x: u16, y: u16, s: &str)
        ensures
            final(self)@.size == old(self)@.size,
            final(self)@.queue == old(self)@.queue + text_draws(
                old(self)@.size,
                x as int,
                y as int,
                s@,
            ),
    {
        if x >= self.term_size.0 || y >= self.term_size.1 {
            assert(old(self)@.queue + Seq::<DrawModel>::empty() =~= old(self)@.queue);
            return;
        }
        let max_len = (self.term_size.0 - x) as usize;
        let n = s.unicode_len();
        let keep = if n > max_len {
            max_len
        } else {
            n
        };
        let clipped = s.substring_char(0, keep);
        let text = String::from_str(clipped);
        proof {
            if n <= max_len {
                assert(s@.subrange(0, keep as int) =~= s@);
            }
        }
        let d = Draw::Text { x, y, text };
        self.enqueue(d);
        assert(old(self)@.queue.push(d@) =~= old(self)@.queue + seq![d@]);
    }
}

/// A window's position, size and title.
pub struct WindowModel {
    pub pos: Vec2,
    pub size: Vec2,
    pub title: Option<Seq<char>>,
}

/// A rectangle of the terminal that draws relative to its top-left corner.
pub struct Window {
    pos: Vec2,
    size: Vec2,
    title: Option<String>,
}

impl View for Window {
    type V = WindowModel;

    closed spec fn view(&self) -> WindowModel {
        WindowModel {
            pos: self.pos,
            size: self.size,
            title: match self.title {
                Some(t) => Some(t@),
                None => None,
            },
        }
    }
}

/// The area one cell in on every side, untitled.
pub open spec fn inner_area(w: WindowModel) -> WindowModel {
    WindowModel {
        pos: Vec2 { x: (w.pos.x + 1) as u16, y: (w.pos.y + 1) as u16 },
        size: Vec2 { x: (w.size.x - 2) as u16, y: (w.size.y - 2) as u16 },
        title: None,
    }
}

/// The area one cell further out on every side, untitled.
pub open spec fn outer_area(w: WindowModel) -> WindowModel {
    WindowModel {
        pos: Vec2 { x: (w.pos.x - 1) as u16, y: (w.pos.y - 1) as u16 },
        size: Vec2 { x: (w.size.x + 2) as u16, y: (w.size.y + 2) as u16 },
        title: None,
    }
}

/// Whether `inner` can be taken without leaving the range of coordinates.
pub open spec fn has_inner(w: WindowModel) -> bool {
    w.pos.x < u16::MAX && w.pos.y < u16::MAX && w.size.x >= 2 && w.size.y >= 2
}

/// Whether `outer` can be taken without leaving the range of coordinates.
pub open spec fn has_outer(w: WindowModel) -> bool {
    w.pos.x >= 1 && w.pos.y >= 1 && w.size.x <= u16::MAX - 2 && w.size.y <= u16::MAX - 2
}

/// `inner` and `outer` undo each other: going in then out, or out then
/// in, gives back the same position and size.
pub proof fn lemma_inner_outer_undo(w: WindowModel)
    ensures
        has_inner(w) ==> has_outer(inner_area(w)) && outer_area(inner_area(w)).pos == w.pos
            && outer_area(inner_area(w)).size == w.size,
        has_outer(w) ==> has_inner(outer_area(w)) && inner_area(outer_area(w)).pos == w.pos
            && inner_area(outer_area(w)).size == w.size,
{
}

/// Column at which `s` starts when centered in a window: half the width,
/// less half the length (as the `u16` it is cast to), plus the window's
/// column.
pub open spec fn centered_column(w: WindowModel, s: Seq<char>) -> int {
    w.size.x / 2 - ((s.len() / 2) as u16) + w.pos.x
}

/// Whether `s` can be centered on row `y` of `w` without leaving the
/// range of terminal coordinates.
pub open spec fn can_center(w: WindowModel, y: u16, s: Seq<char>) -> bool {
    &&& ((s.len() / 2) as u16) <= w.size.x / 2
    &&& centered_column(w, s) <= u16::MAX
    &&& y + w.pos.y <= u16::MAX
}

/// The text a window's title is drawn as.
pub open spec fn title_text(name: Seq<char>) -> Seq<char> {
    "[ "@ + name + " ]"@
}

/// The side edges, rows 1 up to (not including) `n`.
pub open spec fn side_edges(w: WindowModel, size: (u16, u16), n: int) -> Seq<DrawModel>
    decreases n,
{
    if n <= 1 {
        Seq::empty()
    } else {
        side_edges(w, size, n - 1) + cell_draws(
            size,
            w.pos.x as int,
            w.pos.y + (n - 1),
            plain_char('│'),
        ) + cell_draws(size, w.pos.x + w.size.x, w.pos.y + (n - 1), plain_char('│'))
    }
}

/// The top and bottom edges, columns 1 up to (not including) `n`.
pub open spec fn top_bottom_edges(w: WindowModel, size: (u16, u16), n: int) -> Seq<DrawModel>
    decreases n,
{
    if n <= 1 {
        Seq::empty()
    } else {
        top_bottom_edges(w, size, n - 1) + cell_draws(
            size,
            w.pos.x + (n - 1),
            w.pos.y as int,
            plain_char('─'),
        ) + cell_draws(size, w.pos.x + (n - 1), w.pos.y + w.size.y, plain_char('─'))
    }
}

/// The four corners.
pub open spec fn corners(w: WindowModel, size: (u16, u16)) -> Seq<DrawModel> {
    cell_draws(size, w.pos.x as int, w.pos.y as int, plain_char('┌')) + cell_draws(
        size,
        w.pos.x + w.size.x,
        w.pos.y as int,
        plain_char('┐'),
    ) + cell_draws(size, w.pos.x as int, w.pos.y + w.size.y, plain_char('└')) + cell_draws(
        size,
        w.pos.x + w.size.x,
        w.pos.y + w.size.y,
        plain_char('┘'),
    )
}

/// Everything a window's border queues: edges, corners, then the title (if
/// any) centered on the top row.
pub open spec fn border_draws(w: WindowModel, size: (u16, u16)) -> Seq<DrawModel> {
    side_edges(w, size, w.size.y as int) + top_bottom_edges(w, size, w.size.x as int) + corners(
        w,
        size,
    ) + match w.title {
        Some(name) => text_draws(
            size,
            centered_column(w, title_text(name)),
            w.pos.y as int,
            title_text(name),
        ),
        None => Seq::empty(),
    }
}

/// A plain character cell at (`x`, `y`).
pub open spec fn plain_cell(x: int, y: int, c: char) -> DrawModel {
    DrawModel::Cell { x: x as u16, y: y as u16, content: plain_char(c) }
}

/// Whether (`x`, `y`) lies within a terminal of the given size.
pub open spec fn inside(size: (u16, u16), x: int, y: int) -> bool {
    0 <= x < size.0 && 0 <= y < size.1
}

pub(crate) proof fn lemma_contains_concat(a: Seq<DrawModel>, b: Seq<DrawModel>, d: DrawModel)
    ensures
        a.contains(d) ==> (a + b).contains(d),
        b.contains(d) ==> (a + b).contains(d),
{
    if a.contains(d) {
        let i = choose|i: int| 0 <= i < a.len() && a[i] == d;
        assert((a + b)[i] == d);
    }
    if b.contains(d) {
        let i = choose|i: int| 0 <= i < b.len() && b[i] == d;
        assert((a + b)[a.len() + i] == d);
    }
}

proof fn lemma_side_edges_cover(w: WindowModel, size: (u16, u16), n: int, r: int)
    requires
        1 <= r < n,
    ensures
        inside(size, w.pos.x as int, w.pos.y + r) ==> side_edges(w, size, n).contains(
            plain_cell(w.pos.x as int, w.pos.y + r, '│'),
        ),
        inside(size, w.pos.x + w.size.x, w.pos.y + r) ==> side_edges(w, size, n).contains(
            plain_cell(w.pos.x + w.size.x, w.pos.y + r, '│'),
        ),
    decreases n,
{
    let prev = side_edges(w, size, n - 1);
    let l = cell_draws(size, w.pos.x as int, w.pos.y + (n - 1), plain_char('│'));
    let rt = cell_draws(size, w.pos.x + w.size.x, w.pos.y + (n - 1), plain_char('│'));
    if r < n - 1 {
        lemma_side_edges_cover(w, size, n - 1, r);
        lemma_contains_concat(prev, l, plain_cell(w.pos.x as int, w.pos.y + r, '│'));
        lemma_contains_concat(prev, l, plain_cell(w.pos.x + w.size.x, w.pos.y + r, '│'));
    } else {
        if inside(size, w.pos.x as int, w.pos.y + r) {
            assert(l[0] == plain_cell(w.pos.x as int, w.pos.y + r, '│'));
            lemma_contains_concat(prev, l, plain_cell(w.pos.x as int, w.pos.y + r, '│'));
        }
        if inside(size, w.pos.x + w.size.x, w.pos.y + r) {
            assert(rt[0] == plain_cell(w.pos.x + w.size.x, w.pos.y + r, '│'));
        }
    }
    lemma_contains_concat(prev + l, rt, plain_cell(w.pos.x as int, w.pos.y + r, '│'));
    lemma_contains_concat(prev + l, rt, plain_cell(w.pos.x + w.size.x, w.pos.y + r, '│'));
}

proof fn lemma_top_bottom_edges_cover(w: WindowModel, size: (u16, u16), n: int, c: int)
    requires
        1 <= c < n,
    ensures
        inside(size, w.pos.x + c, w.pos.y as int) ==> top_bottom_edges(w, size, n).contains(
            plain_cell(w.pos.x + c, w.pos.y as int, '─'),
        ),
        inside(size, w.pos.x + c, w.pos.y + w.size.y) ==> top_bottom_edges(w, size, n).contains(
            plain_cell(w.pos.x + c, w.pos.y + w.size.y, '─'),
        ),
    decreases n,
{
    let prev = top_bottom_edges(w, size, n - 1);
    let t = cell_draws(size, w.pos.x + (n - 1), w.pos.y as int, plain_char('─'));
    let b = cell_draws(size, w.pos.x + (n - 1), w.pos.y + w.size.y, plain_char('─'));
    if c < n - 1 {
        lemma_top_bottom_edges_cover(w, size, n - 1, c);
        lemma_contains_concat(prev, t, plain_cell(w.pos.x + c, w.pos.y as int, '─'));
        lemma_contains_concat(prev, t, plain_cell(w.pos.x + c, w.pos.y + w.size.y, '─'));
    } else {
        if inside(size, w.pos.x + c, w.pos.y as int) {
            assert(t[0] == plain_cell(w.pos.x + c, w.pos.y as int, '─'));
            lemma_contains_concat(prev, t, plain_cell(w.pos.x + c, w.pos.y as int, '─'));
        }
        if inside(size, w.pos.x + c, w.pos.y + w.size.y) {
            assert(b[0] == plain_cell(w.pos.x + c, w.pos.y + w.size.y, '─'));
        }
    }
    lemma_contains_concat(prev + t, b, plain_cell(w.pos.x + c, w.pos.y as int, '─'));
    lemma_contains_concat(prev + t, b, plain_cell(w.pos.x + c, w.pos.y + w.size.y, '─'));
}

/// The border closes the window on every side: each row strictly between
/// the top and bottom edges gets a `│` in the left column and in the right
/// column, each column strictly between the side edges gets a `─` on the top
/// row and on the bottom row, and the four corners get their corner pieces
/// (each wherever it lies on the terminal).
pub proof fn lemma_border_closes_the_window(w: WindowModel, size: (u16, u16))
    ensures
        forall|r: int|
            1 <= r < w.size.y && inside(size, w.pos.x as int, w.pos.y + r) ==> border_draws(
                w,
                size,
            ).contains(#[trigger] plain_cell(w.pos.x as int, w.pos.y + r, '│')),
        forall|r: int|
            1 <= r < w.size.y && inside(size, w.pos.x + w.size.x, w.pos.y + r) ==> border_draws(
                w,
                size,
            ).contains(#[trigger] plain_cell(w.pos.x + w.size.x, w.pos.y + r, '│')),
        forall|c: int|
            1 <= c < w.size.x && inside(size, w.pos.x + c, w.pos.y as int) ==> border_draws(
                w,
                size,
            ).contains(#[trigger] plain_cell(w.pos.x + c, w.pos.y as int, '─')),
        forall|c: int|
            1 <= c < w.size.x && inside(size, w.pos.x + c, w.pos.y + w.size.y) ==> border_draws(
                w,
                size,
            ).contains(#[trigger] plain_cell(w.pos.x + c, w.pos.y + w.size.y, '─')),
        inside(size, w.pos.x as int, w.pos.y as int) ==> border_draws(w, size).contains(
            plain_cell(w.pos.x as int, w.pos.y as int, '┌'),
        ),
        inside(size, w.pos.x + w.size.x, w.pos.y as int) ==> border_draws(w, size).contains(
            plain_cell(w.pos.x + w.size.x, w.pos.y as int, '┐'),
        ),
        inside(size, w.pos.x as int, w.pos.y + w.size.y) ==> border_draws(w, size).contains(
            plain_cell(w.pos.x as int, w.pos.y + w.size.y, '└'),
        ),
        inside(size, w.pos.x + w.size.x, w.pos.y + w.size.y) ==> border_draws(w, size).contains(
            plain_cell(w.pos.x + w.size.x, w.pos.y + w.size.y, '┘'),
        ),
{
    let sides = side_edges(w, size, w.size.y as int);
    let tb = top_bottom_edges(w, size, w.size.x as int);
    let co = corners(w, size);
    let title = match w.title {
        Some(name) => text_draws(
            size,
            centered_column(w, title_text(name)),
            w.pos.y as int,
            title_text(name),
        ),
        None => Seq::<DrawModel>::empty(),
    };
    assert(border_draws(w, size) == sides + tb + co + title);
    assert forall|r: int|
        1 <= r < w.size.y && inside(size, w.pos.x as int, w.pos.y + r) implies border_draws(
        w,
        size,
    ).contains(#[trigger] plain_cell(w.pos.x as int, w.pos.y + r, '│')) by {
        let d = plain_cell(w.pos.x as int, w.pos.y + r, '│');
        lemma_side_edges_cover(w, size, w.size.y as int, r);
        lemma_contains_concat(sides, tb, d);
        lemma_contains_concat(sides + tb, co, d);
        lemma_contains_concat(sides + tb + co, title, d);
    }
    assert forall|r: int|
        1 <= r < w.size.y && inside(size, w.pos.x + w.size.x, w.pos.y + r) implies border_draws(
        w,
        size,
    ).contains(#[trigger] plain_cell(w.pos.x + w.size.x, w.pos.y + r, '│')) by {
        let d = plain_cell(w.pos.x + w.size.x, w.pos.y + r, '│');
        lemma_side_edges_cover(w, size, w.size.y as int, r);
        lemma_contains_concat(sides, tb, d);
        lemma_contains_concat(sides + tb, co, d);
        lemma_contains_concat(sides + tb + co, title, d);
    }
    assert forall|c: int|
        1 <= c < w.size.x && inside(size, w.pos.x + c, w.pos.y as int) implies border_draws(
        w,
        size,
    ).contains(#[trigger] plain_cell(w.pos.x + c, w.pos.y as int, '─')) by {
        let d = plain_cell(w.pos.x + c, w.pos.y as int, '─');
        lemma_top_bottom_edges_cover(w, size, w.size.x as int, c);
        lemma_contains_concat(sides, tb, d);
        lemma_contains_concat(sides + tb, co, d);
        lemma_contains_concat(sides + tb + co, title, d);
    }
    assert forall|c: int|
        1 <= c < w.size.x && inside(size, w.pos.x + c, w.pos.y + w.size.y) implies border_draws(
        w,
        size,
    ).contains(#[trigger] plain_cell(w.pos.x + c, w.pos.y + w.size.y, '─')) by {
        let d = plain_cell(w.pos.x + c, w.pos.y + w.size.y, '─');
        lemma_top_bottom_edges_cover(w, size, w.size.x as int, c);
        lemma_contains_concat(sides, tb, d);
        lemma_contains_concat(sides + tb, co, d);
        lemma_contains_concat(sides + tb + co, title, d);
    }
    let c1 = cell_draws(size, w.pos.x as int, w.pos.y as int, plain_char('┌'));
    let c2 = cell_draws(size, w.pos.x + w.size.x, w.pos.y as int, plain_char('┐'));
    let c3 = cell_draws(size, w.pos.x as int, w.pos.y + w.size.y, plain_char('└'));
    let c4 = cell_draws(size, w.pos.x + w.size.x, w.pos.y + w.size.y, plain_char('┘'));
    assert(co == c1 + c2 + c3 + c4);
    let d1 = plain_cell(w.pos.x as int, w.pos.y as int, '┌');
    let d2 = plain_cell(w.pos.x + w.size.x, w.pos.y as int, '┐');
    let d3 = plain_cell(w.pos.x as int, w.pos.y + w.size.y, '└');
    let d4 = plain_cell(w.pos.x + w.size.x, w.pos.y + w.size.y, '┘');
    if inside(size, w.pos.x as int, w.pos.y as int) {
        assert(c1[0] == d1);
        lemma_contains_concat(c1, c2, d1);
        lemma_contains_concat(c1 + c2, c3, d1);
        lemma_contains_concat(c1 + c2 + c3, c4, d1);
        lemma_contains_concat(sides + tb, co, d1);
        lemma_contains_concat(sides + tb + co, title, d1);
    }
    if inside(size, w.pos.x + w.size.x, w.pos.y as int) {
        assert(c2[0] == d2);
        lemma_contains_concat(c1, c2, d2);
        lemma_contains_concat(c1 + c2, c3, d2);
        lemma_contains_concat(c1 + c2 + c3, c4, d2);
        lemma_contains_concat(sides + tb, co, d2);
        lemma_contains_concat(sides + tb + co, title, d2);
    }
    if inside(size, w.pos.x as int, w.pos.y + w.size.y) {
        assert(c3[0] == d3);
        lemma_contains_concat(c1 + c2, c3, d3);
        lemma_contains_concat(c1 + c2 + c3, c4, d3);
        lemma_contains_concat(sides + tb, co, d3);
        lemma_contains_concat(sides + tb + co, title, d3);
    }
    if inside(size, w.pos.x + w.size.x, w.pos.y + w.size.y) {
        assert(c4[0] == d4);
        lemma_contains_concat(c1 + c2 + c3, c4, d4);
        lemma_contains_concat(sides + tb, co, d4);
        lemma_contains_concat(sides + tb + co, title, d4);
    }
}

/// Whether `d` is a piece of `w`'s frame: a `│` on the left or right column
/// strictly between the top and bottom rows, a `─` on the top or bottom row
/// strictly between the side columns, or the matching corner piece.
pub open spec fn frame_piece(w: WindowModel, d: DrawModel) -> bool {
    let left = w.pos.x as int;
    let right = w.pos.x + w.size.x;
    let top = w.pos.y as int;
    let bottom = w.pos.y + w.size.y;
    match d {
        DrawModel::Cell { x, y, content } => {
            ||| content == plain_char('│') && (x == left || x == right) && top < y < bottom
            ||| content == plain_char('─') && (y == top || y == bottom) && left < x < right
            ||| content == plain_char('┌') && x == left && y == top
            ||| content == plain_char('┐') && x == right && y == top
            ||| content == plain_char('└') && x == left && y == bottom
            ||| content == plain_char('┘') && x == right && y == bottom
        },
        _ => false,
    }
}

/// Whether every command of `s` is a piece of `w`'s frame.
pub open spec fn all_frame(w: WindowModel, s: Seq<DrawModel>) -> bool {
    forall|k: int| 0 <= k < s.len() ==> frame_piece(w, #[trigger] s[k])
}

proof fn lemma_all_frame_concat(w: WindowModel, a: Seq<DrawModel>, b: Seq<DrawModel>)
    requires
        all_frame(w, a),
        all_frame(w, b),
    ensures
        all_frame(w, a + b),
{
    assert forall|k: int| 0 <= k < (a + b).len() implies frame_piece(w, #[trigger] (a + b)[k]) by {
        if k < a.len() {
            assert((a + b)[k] == a[k]);
        } else {
            assert((a + b)[k] == b[k - a.len()]);
        }
    }
}

proof fn lemma_side_edges_sound(w: WindowModel, size: (u16, u16), n: int)
    requires
        n <= w.size.y,
    ensures
        all_frame(w, side_edges(w, size, n)),
        n >= 1 && inside(size, w.pos.x + w.size.x, w.pos.y + w.size.y) ==> side_edges(
            w,
            size,
            n,
        ).len() == 2 * (n - 1),
    decreases n,
{
    if n > 1 {
        lemma_side_edges_sound(w, size, n - 1);
        let prev = side_edges(w, size, n - 1);
        let l = cell_draws(size, w.pos.x as int, w.pos.y + (n - 1), plain_char('│'));
        let rt = cell_draws(size, w.pos.x + w.size.x, w.pos.y + (n - 1), plain_char('│'));
        assert(all_frame(w, l)) by {
            if l.len() > 0 {
                assert(l[0] == DrawModel::Cell {
                    x: w.pos.x,
                    y: (w.pos.y + (n - 1)) as u16,
                    content: plain_char('│'),
                });
            }
        }
        assert(all_frame(w, rt)) by {
            if rt.len() > 0 {
                assert(rt[0] == DrawModel::Cell {
                    x: (w.pos.x + w.size.x) as u16,
                    y: (w.pos.y + (n - 1)) as u16,
                    content: plain_char('│'),
                });
            }
        }
        lemma_all_frame_concat(w, prev, l);
        lemma_all_frame_concat(w, prev + l, rt);
    }
}

proof fn lemma_top_bottom_edges_sound(w: WindowModel, size: (u16, u16), n: int)
    requires
        n <= w.size.x,
    ensures
        all_frame(w, top_bottom_edges(w, size, n)),
        n >= 1 && inside(size, w.pos.x + w.size.x, w.pos.y + w.size.y) ==> top_bottom_edges(
            w,
            size,
            n,
        ).len() == 2 * (n - 1),
    decreases n,
{
    if n > 1 {
        lemma_top_bottom_edges_sound(w, size, n - 1);
        let prev = top_bottom_edges(w, size, n - 1);
        let t = cell_draws(size, w.pos.x + (n - 1), w.pos.y as int, plain_char('─'));
        let b = cell_draws(size, w.pos.x + (n - 1), w.pos.y + w.size.y, plain_char('─'));
        assert(all_frame(w, t)) by {
            if t.len() > 0 {
                assert(t[0] == DrawModel::Cell {
                    x: (w.pos.x + (n - 1)) as u16,
                    y: w.pos.y,
                    content: plain_char('─'),
                });
            }
        }
        assert(all_frame(w, b)) by {
            if b.len() > 0 {
                assert(b[0] == DrawModel::Cell {
                    x: (w.pos.x + (n - 1)) as u16,
                    y: (w.pos.y + w.size.y) as u16,
                    content: plain_char('─'),
                });
            }
        }
        lemma_all_frame_concat(w, prev, t);
        lemma_all_frame_concat(w, prev + t, b);
    }
}

proof fn lemma_corners_sound(w: WindowModel, size: (u16, u16))
    ensures
        all_frame(w, corners(w, size)),
        inside(size, w.pos.x + w.size.x, w.pos.y + w.size.y) ==> corners(w, size).len() == 4,
{
    let c1 = cell_draws(size, w.pos.x as int, w.pos.y as int, plain_char('┌'));
    let c2 = cell_draws(size, w.pos.x + w.size.x, w.pos.y as int, plain_char('┐'));
    let c3 = cell_draws(size, w.pos.x as int, w.pos.y + w.size.y, plain_char('└'));
    let c4 = cell_draws(size, w.pos.x + w.size.x, w.pos.y + w.size.y, plain_char('┘'));
    assert(corners(w, size) == c1 + c2 + c3 + c4);
    assert(all_frame(w, c1)) by {
        if c1.len() > 0 {
            assert(c1[0] == DrawModel::Cell { x: w.pos.x, y: w.pos.y, content: plain_char('┌') });
        }
    }
    assert(all_frame(w, c2)) by {
        if c2.len() > 0 {
            assert(c2[0] == DrawModel::Cell {
                x: (w.pos.x + w.size.x) as u16,
                y: w.pos.y,
                content: plain_char('┐'),
            });
        }
    }
    assert(all_frame(w, c3)) by {
        if c3.len() > 0 {
            assert(c3[0] == DrawModel::Cell {
                x: w.pos.x,
                y: (w.pos.y + w.size.y) as u16,
                content: plain_char('└'),
            });
        }
    }
    assert(all_frame(w, c4)) by {
        if c4.len() > 0 {
            assert(c4[0] == DrawModel::Cell {
                x: (w.pos.x + w.size.x) as u16,
                y: (w.pos.y + w.size.y) as u16,
                content: plain_char('┘'),
            });
        }
    }
    lemma_all_frame_concat(w, c1, c2);
    lemma_all_frame_concat(w, c1 + c2, c3);
    lemma_all_frame_concat(w, c1 + c2 + c3, c4);
}

/// The border queues nothing but its frame and its title: every command is
/// a piece of the frame (a `│` on a side edge, a `─` on the top or bottom
/// edge, a corner piece), except a last one, the title's text on the top
/// row, when the window has a title. When the whole window lies on the
/// terminal, the frame pieces are exactly one per border cell: two per row
/// between the top and bottom edges, two per column between the side
/// edges, and four corners, with at most the title after them.
pub proof fn lemma_border_draws_only_the_frame(w: WindowModel, size: (u16, u16))
    ensures
        forall|k: int|
            0 <= k < border_draws(w, size).len() ==> frame_piece(
                w,
                #[trigger] border_draws(w, size)[k],
            ) || (k == border_draws(w, size).len() - 1 && w.title is Some && (border_draws(
                w,
                size,
            )[k] matches DrawModel::Text { y, .. } && y == w.pos.y)),
        w.size.x >= 1 && w.size.y >= 1 && inside(size, w.pos.x + w.size.x, w.pos.y + w.size.y)
            ==> {
            let frame = 2 * (w.size.y - 1) + 2 * (w.size.x - 1) + 4;
            &&& frame <= border_draws(w, size).len() <= frame + 1
            &&& forall|k: int| 0 <= k < frame ==> frame_piece(w, #[trigger] border_draws(w, size)[k])
            &&& w.title is None ==> border_draws(w, size).len() == frame
        },
{
    let sides = side_edges(w, size, w.size.y as int);
    let tb = top_bottom_edges(w, size, w.size.x as int);
    let co = corners(w, size);
    let title = match w.title {
        Some(name) => text_draws(
            size,
            centered_column(w, title_text(name)),
            w.pos.y as int,
            title_text(name),
        ),
        None => Seq::<DrawModel>::empty(),
    };
    assert(border_draws(w, size) == sides + tb + co + title);
    lemma_side_edges_sound(w, size, w.size.y as int);
    lemma_top_bottom_edges_sound(w, size, w.size.x as int);
    lemma_corners_sound(w, size);
    lemma_all_frame_concat(w, sides, tb);
    lemma_all_frame_concat(w, sides + tb, co);
    let frame = sides + tb + co;
    let all = frame + title;
    assert(title.len() <= 1);
    assert forall|k: int| 0 <= k < all.len() implies frame_piece(w, #[trigger] all[k]) || (k
        == all.len() - 1 && w.title is Some && (all[k] matches DrawModel::Text { y, .. } && y
        == w.pos.y)) by {
        if k < frame.len() {
            assert(all[k] == frame[k]);
        } else {
            assert(all[k] == title[k - frame.len()]);
            assert(title.len() == 1);
            assert(k == all.len() - 1);
        }
    }
    if w.size.x >= 1 && w.size.y >= 1 && inside(size, w.pos.x + w.size.x, w.pos.y + w.size.y) {
        assert forall|k: int|
            0 <= k < 2 * (w.size.y - 1) + 2 * (w.size.x - 1) + 4 implies frame_piece(
            w,
            #[trigger] all[k],
        ) by {
            assert(all[k] == frame[k]);
        }
    }
}

/// The title is written last, whole, as `[ name ]` on the top edge, and
/// centered: the columns left free on its two sides, within the window's
/// width, differ by at most one (when the title fits in the window and the
/// top edge lies on the terminal).
pub proof fn lemma_title_centered_on_top(w: WindowModel, size: (u16, u16))
    requires
        w.title is Some,
        title_text(w.title->Some_0).len() <= w.size.x,
        inside(size, w.pos.x + w.size.x, w.pos.y as int),
    ensures
        ({
            let text = title_text(w.title->Some_0);
            let x = centered_column(w, text);
            let left = x - w.pos.x;
            let right = (w.pos.x + w.size.x) - (x + text.len());
            &&& border_draws(w, size).len() > 0
            &&& border_draws(w, size).last() == DrawModel::Text { x: x as u16, y: w.pos.y, text }
            &&& 0 <= left && 0 <= right
            &&& -1 <= left - right <= 1
        }),
{
    let text = title_text(w.title->Some_0);
    let x = centered_column(w, text);
    let frame = side_edges(w, size, w.size.y as int) + top_bottom_edges(w, size, w.size.x as int)
        + corners(w, size);
    let title = text_draws(size, x, w.pos.y as int, text);
    assert(border_draws(w, size) == frame + title);
    assert(title.len() == 1);
    assert(title[0] == DrawModel::Text { x: x as u16, y: w.pos.y, text });
    assert((frame + title).last() == title[0]);
}

/// Whether a window's border, title included, can be drawn without leaving
/// the range of terminal coordinates.
pub open spec fn can_draw_borders(w: WindowModel) -> bool {
    &&& w.pos.x + w.size.x <= u16::MAX
    &&& w.pos.y + w.size.y <= u16::MAX
    &&& match w.title {
        Some(name) => can_center(w, 0, title_text(name)),
        None => true,
    }
}

impl Window {
    /// The top-left corner.
    pub fn pos(&self) -> (p: Vec2)
        ensures
            p == self@.pos,
    {
        self.pos
    }

    /// The width and height.
    pub fn size(&self) -> (s: Vec2)
        ensures
            s == self@.size,
    {
        self.size
    }

    /// A window at (`x`, `y`) of the given size, without a title.
    pub fn new(x: u16, y: u16, width: u16, height: u16) -> (w: Self)
        ensures
            w@.pos == (Vec2 { x, y }),
            w@.size == (Vec2 { x: width, y: height }),
            w@.title is None,
    {
        Window { pos: Vec2 { x, y }, size: Vec2 { x: width, y: height }, title: None }
    }

    /// A window of the given size centered on the terminal, its corner kept
    /// on the screen.
    pub fn centered(renderer: &Renderer, width: u16, height: u16) -> (w: Self)
        ensures
            w@.pos.x == (if renderer@.size.0 / 2 >= width / 2 {
                renderer@.size.0 / 2 - width / 2
            } else {
                0
            }),
            w@.pos.y == (if renderer@.size.1 / 2 >= height / 2 {
                renderer@.size.1 / 2 - height / 2
            } else {
                0
            }),
            w@.size == (Vec2 { x: width, y: height }),
            w@.title is None,
    {
        let (x, y) = renderer.center_point();
        Window::new(x.saturating_sub(width / 2), y.saturating_sub(height / 2), width, height)
    }

    /// Sets the title drawn on the top border.
    pub fn set_title(&mut self, title: &str)
        ensures
            final(self)@.title == Some(title@),
            final(self)@.pos == old(self)@.pos,
            final(self)@.size == old(self)@.size,
    {
        self.title = Some(String::from_str(title));
    }

    /// The area inside the border: one cell in on every side, untitled.
    pub fn inner(&self) -> (w: Self)
        requires
            has_inner(self@),
        ensures
            w@ == inner_area(self@),
    {
        Window {
            pos: Vec2 { x: self.pos.x + 1, y: self.pos.y + 1 },
            size: Vec2 { x: self.size.x - 2, y: self.size.y - 2 },
            title: None,
        }
    }

    /// The area one cell further out on every side, untitled.
    pub fn outer(&self) -> (w: Self)
        requires
            has_outer(self@),
        ensures
            w@ == outer_area(self@),
    {
        Window {
            pos: Vec2 { x: self.pos.x - 1, y: self.pos.y - 1 },
            size: Vec2 { x: self.size.x + 2, y: self.size.y + 2 },
            title: None,
        }
    }

    /// Draws a plain character at (`x`, `y`) relative to the window.
    pub fn pixel(&self, renderer: &mut Renderer, x: u16, y: u16, c: char)
        requires
            self@.pos.x + x <= u16::MAX,
            self@.pos.y + y <= u16::MAX,
        ensures
            final(renderer)@.size == old(renderer)@.size,
            final(renderer)@.queue == old(renderer)@.queue + cell_draws(
                old(renderer)@.size,
                self@.pos.x + x,
                self@.pos.y + y,
                plain_char(c),
            ),
    {
        renderer.pixel(self.pos.x + x, self.pos.y + y, c);
    }

    /// Draws a styled character at (`x`, `y`) relative to the window.
    pub fn pixel_styled(&self, renderer: &mut Renderer, x: u16, y: u16, c: StyledChar)
        requires
            self@.pos.x + x <= u16::MAX,
            self@.pos.y + y <= u16::MAX,
        ensures
            final(renderer)@.size == old(renderer)@.size,
            final(renderer)@.queue == old(renderer)@.queue + cell_draws(
                old(renderer)@.size,
                self@.pos.x + x,
                self@.pos.y + y,
                c,
            ),
    {
        renderer.pixel_styled(self.pos.x + x, self.pos.y + y, c);
    }

    /// Prints `s` from (`x`, `y`) relative to the window.
    pub fn print_str(&self, renderer: &mut Renderer, x: u16, y: u16, s: &str)
        requires
            x + self@.pos.x <= u16::MAX,
            y + self@.pos.y <= u16::MAX,
        ensures
            final(renderer)@.size == old(renderer)@.size,
            final(renderer)@.queue == old(renderer)@.queue + text_draws(
                old(renderer)@.size,
                x + self@.pos.x,
                y + self@.pos.y,
                s@,
            ),
    {
        renderer.print_str(x + self.pos.x, y + self.pos.y, s);
    }

    /// Prints `s` centered on row `y` of the window.
    pub fn print_centered_str(&self, renderer: &mut Renderer, y: u16, s: &str)
        requires
            can_center(self@, y, s@),
        ensures
            final(renderer)@.size == old(renderer)@.size,
            final(renderer)@.queue == old(renderer)@.queue + text_draws(
                old(renderer)@.size,
                centered_column(self@, s@),
                y + self@.pos.y,
                s@,
            ),
    {
        let half = (s.unicode_len() / 2) as u16;
        renderer.print_str(self.size.x / 2 - half + self.pos.x, y + self.pos.y, s);
    }

    /// Draws the border, and the title centered on the top edge.
    pub fn draw_borders(&self, renderer: &mut Renderer)
        requires
            can_draw_borders(self@),
        ensures
            final(renderer)@.size == old(renderer)@.size,
            final(renderer)@.queue == old(renderer)@.queue + border_draws(
                self@,
                old(renderer)@.size,
            ),
    {
        let ghost w = self@;
        let ghost size = old(renderer)@.size;
        let ghost start = old(renderer)@.queue;
        let mut y: u16 = 1;
        while y < self.size.y
            invariant
                w == self@,
                can_draw_borders(w),
                renderer@.size == size,
                1 <= y,
                y <= w.size.y || y == 1,
                renderer@.queue == start + side_edges(w, size, y as int),
            decreases w.size.y - y,
        {
            self.pixel(renderer, 0, y, '│');
            self.pixel(renderer, self.size.x, y, '│');
            y = y + 1;
        }
        assert(side_edges(w, size, y as int) == side_edges(w, size, w.size.y as int));
        let ghost after_sides = renderer@.queue;
        let mut x: u16 = 1;
        while x < self.size.x
            invariant
                w == self@,
                can_draw_borders(w),
                renderer@.size == size,
                1 <= x,
                x <= w.size.x || x == 1,
                renderer@.queue == after_sides + top_bottom_edges(w, size, x as int),
            decreases w.size.x - x,
        {
            self.pixel(renderer, x, 0, '─');
            self.pixel(renderer, x, self.size.y, '─');
            x = x + 1;
        }
        assert(top_bottom_edges(w, size, x as int) == top_bottom_edges(w, size, w.size.x as int));
        self.pixel(renderer, 0, 0, '┌');
        self.pixel(renderer, self.size.x, 0, '┐');
        self.pixel(renderer, 0, self.size.y, '└');
        self.pixel(renderer, self.size.x, self.size.y, '┘');
        let ghost after_corners = renderer@.queue;
        assert(after_corners =~= start + side_edges(w, size, w.size.y as int) + top_bottom_edges(
            w,
            size,
            w.size.x as int,
        ) + corners(w, size));
        match &self.title {
            Some(name) => {
                let mut title = String::from_str("[ ");
                title.append(name.as_str());
                title.append(" ]");
                self.print_centered_str(renderer, 0, title.as_str());
            },
            None => {
                assert(after_corners + Seq::<DrawModel>::empty() =~= after_corners);
            },
        }
    }
}

} // verus!
