use snake_tui::style::Color;
use snake_tui::tui::{Draw, Renderer, StyledChar, Vec2, Window};

fn cell(x: u16, y: u16, ch: char) -> Draw {
    Draw::Cell { x, y, content: StyledChar::plain(ch) }
}

fn text(x: u16, y: u16, s: &str) -> Draw {
    Draw::Text { x, y, text: s.to_string() }
}

#[test]
fn renderer_defaults_to_eighty_by_twenty_four() {
    let r = Renderer::new(None);
    assert_eq!(r.center_point(), (40, 12));
    let r = Renderer::new(Some((101, 31)));
    assert_eq!(r.center_point(), (50, 15));
}

#[test]
fn refresh_keeps_size_when_measuring_fails() {
    let mut r = Renderer::new(Some((10, 10)));
    r.refresh_size(None);
    assert_eq!(r.center_point(), (5, 5));
    r.refresh_size(Some((30, 4)));
    assert_eq!(r.center_point(), (15, 2));
}

#[test]
fn pixels_outside_the_terminal_are_dropped() {
    let mut r = Renderer::new(Some((4, 3)));
    r.pixel(3, 2, 'a');
    r.pixel(4, 0, 'b');
    r.pixel(0, 3, 'c');
    let styled = StyledChar { ch: ' ', foreground: None, background: Some(Color::Rgb { r: 1, g: 2, b: 3 }) };
    r.pixel_styled(1, 1, styled);
    assert_eq!(r.present(), vec![cell(3, 2, 'a'), Draw::Cell { x: 1, y: 1, content: styled }]);
    assert_eq!(r.present(), vec![]);
}

#[test]
fn text_is_cut_at_the_right_edge() {
    let mut r = Renderer::new(Some((10, 2)));
    r.print_str(6, 0, "abcdef");
    r.print_str(0, 1, "short");
    r.print_str(10, 0, "gone");
    r.print_str(9, 1, "→x");
    r.clear();
    assert_eq!(
        r.present(),
        vec![text(6, 0, "abcd"), text(0, 1, "short"), text(9, 1, "→"), Draw::Clear]
    );
}

#[test]
fn window_geometry() {
    let w = Window::new(5, 6, 20, 10);
    let i = w.inner();
    assert_eq!(i.pos(), Vec2 { x: 6, y: 7 });
    assert_eq!(i.size(), Vec2 { x: 18, y: 8 });
    let o = w.outer();
    assert_eq!(o.pos(), Vec2 { x: 4, y: 5 });
    assert_eq!(o.size(), Vec2 { x: 22, y: 12 });
    let back = w.inner().outer();
    assert_eq!((back.pos(), back.size()), (w.pos(), w.size()));
    let back = w.outer().inner();
    assert_eq!((back.pos(), back.size()), (w.pos(), w.size()));
}

#[test]
fn centered_window_stays_on_screen() {
    let r = Renderer::new(Some((80, 24)));
    let w = Window::centered(&r, 42, 21);
    assert_eq!(w.pos(), Vec2 { x: 19, y: 2 });
    let w = Window::centered(&r, 100, 30);
    assert_eq!(w.pos(), Vec2 { x: 0, y: 0 });
    assert_eq!(w.size(), Vec2 { x: 100, y: 30 });
}

#[test]
fn window_draws_relative_to_its_corner() {
    let mut r = Renderer::new(Some((80, 24)));
    let w = Window::new(10, 5, 20, 10);
    w.pixel(&mut r, 1, 2, '#');
    w.print_str(&mut r, 0, 0, "hi");
    w.print_centered_str(&mut r, 3, "abcd");
    assert_eq!(r.present(), vec![cell(11, 7, '#'), text(10, 5, "hi"), text(18, 8, "abcd")]);
}

#[test]
fn borders_of_a_small_window() {
    let mut r = Renderer::new(Some((80, 24)));
    let w = Window::new(1, 1, 3, 2);
    w.draw_borders(&mut r);
    assert_eq!(
        r.present(),
        vec![
            cell(1, 2, '│'),
            cell(4, 2, '│'),
            cell(2, 1, '─'),
            cell(2, 3, '─'),
            cell(3, 1, '─'),
            cell(3, 3, '─'),
            cell(1, 1, '┌'),
            cell(4, 1, '┐'),
            cell(1, 3, '└'),
            cell(4, 3, '┘'),
        ]
    );
}

#[test]
fn border_title_is_centered_on_the_top_edge() {
    let mut r = Renderer::new(Some((80, 24)));
    let mut big = Window::new(0, 0, 20, 1);
    big.set_title("Hi");
    big.draw_borders(&mut r);
    let drawn = r.present();
    assert_eq!(drawn.last(), Some(&text(7, 0, "[ Hi ]")));
    assert_eq!(drawn.len(), 2 * 19 + 4 + 1);
}

#[test]
fn borders_are_clipped_by_the_terminal() {
    let mut r = Renderer::new(Some((3, 3)));
    let w = Window::new(1, 1, 2, 2);
    w.draw_borders(&mut r);
    assert_eq!(
        r.present(),
        vec![cell(1, 2, '│'), cell(2, 1, '─'), cell(1, 1, '┌')]
    );
}
