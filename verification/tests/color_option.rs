use snake_tui::style::{
    apple_color_for, color_by_name, keyword_style, named_color_rgb, parse_color_arg, parse_style,
    style_from_stops, Color, ColorStruct, SnakeStyle,
};

#[test]
fn parses_single_named_color_as_solid() {
    let style = parse_style("green").unwrap();
    assert_eq!(style, SnakeStyle::Solid(ColorStruct::new(66, 168, 50)));
}

#[test]
fn parses_orange_and_yellow() {
    assert_eq!(
        parse_style("orange").unwrap(),
        SnakeStyle::Solid(ColorStruct::new(220, 120, 30))
    );
    assert_eq!(
        parse_style("yellow").unwrap(),
        SnakeStyle::Solid(ColorStruct::new(200, 180, 40))
    );
}

#[test]
fn parsing_is_case_insensitive_and_trims_whitespace() {
    let style = parse_style("  ReD  ").unwrap();
    assert_eq!(style, SnakeStyle::Solid(ColorStruct::new(200, 60, 60)));
}

#[test]
fn parses_rainbow_keyword() {
    assert_eq!(parse_style("rainbow").unwrap(), SnakeStyle::Rainbow);
    assert_eq!(parse_style("Rainbow").unwrap(), SnakeStyle::Rainbow);
}

#[test]
fn parses_party_keyword() {
    assert_eq!(parse_style("party").unwrap(), SnakeStyle::Party);
}

#[test]
fn parses_two_stop_gradient() {
    let style = parse_style("red-magenta").unwrap();
    assert_eq!(
        style,
        SnakeStyle::Gradient(vec![
            ColorStruct::new(200, 60, 60),
            ColorStruct::new(170, 60, 170),
        ])
    );
}

#[test]
fn parses_multi_stop_gradient_preserving_order() {
    let style = parse_style("red-magenta-blue").unwrap();
    assert_eq!(
        style,
        SnakeStyle::Gradient(vec![
            ColorStruct::new(200, 60, 60),
            ColorStruct::new(170, 60, 170),
            ColorStruct::new(60, 110, 200),
        ])
    );
}

#[test]
fn rejects_unknown_color_name() {
    assert!(parse_style("mauve").is_err());
}

#[test]
fn rejects_unknown_color_within_gradient() {
    let err = parse_style("red-mauve-blue").unwrap_err();
    assert!(err.contains("mauve"));
}

#[test]
fn rejects_empty_color() {
    assert!(parse_style("").is_err());
    assert!(parse_style("   ").is_err());
}

#[test]
fn color_arg_stores_lowercased_raw_value() {
    let arg = parse_color_arg("Red-Magenta").unwrap();
    assert_eq!(arg.raw, "red-magenta");
    assert_eq!(
        arg.style,
        SnakeStyle::Gradient(vec![
            ColorStruct::new(200, 60, 60),
            ColorStruct::new(170, 60, 170),
        ])
    );
}

#[test]
fn apple_is_white_for_gradients_red_rainbow_and_party() {
    assert_eq!(apple_color_for("red-magenta"), Color::White);
    assert_eq!(apple_color_for("red"), Color::White);
    assert_eq!(apple_color_for("rainbow"), Color::White);
    assert_eq!(apple_color_for("party"), Color::White);
}

#[test]
fn apple_is_red_for_other_solid_colors() {
    assert_eq!(apple_color_for("green"), Color::Red);
    assert_eq!(apple_color_for("blue"), Color::Red);
}

#[test]
fn every_named_color_has_its_rgb_value() {
    assert_eq!(color_by_name("green"), Some((66, 168, 50)));
    assert_eq!(color_by_name("red"), Some((200, 60, 60)));
    assert_eq!(color_by_name("blue"), Some((60, 110, 200)));
    assert_eq!(color_by_name("yellow"), Some((200, 180, 40)));
    assert_eq!(color_by_name("orange"), Some((220, 120, 30)));
    assert_eq!(color_by_name("magenta"), Some((170, 60, 170)));
    assert_eq!(color_by_name("cyan"), Some((50, 170, 170)));
    assert_eq!(color_by_name("white"), Some((210, 210, 210)));
    assert_eq!(color_by_name("mauve"), None);
    assert_eq!(color_by_name("Green"), None);
    assert_eq!(color_by_name(" green"), None);
}

#[test]
fn named_color_ignores_case_and_surrounding_space() {
    assert_eq!(named_color_rgb(" CyAn\t"), Some((50, 170, 170)));
    assert_eq!(named_color_rgb("\u{a0}white\n"), Some((210, 210, 210)));
    assert_eq!(named_color_rgb("whi te"), None);
    assert_eq!(named_color_rgb(""), None);
}

#[test]
fn keywords_are_rainbow_and_party_only() {
    assert_eq!(keyword_style("rainbow"), Some(SnakeStyle::Rainbow));
    assert_eq!(keyword_style("party"), Some(SnakeStyle::Party));
    assert_eq!(keyword_style("Rainbow"), None);
    assert_eq!(keyword_style("red"), None);
}

#[test]
fn one_stop_is_solid_and_others_are_gradients() {
    let red = ColorStruct::new(200, 60, 60);
    assert_eq!(style_from_stops(vec![red]), SnakeStyle::Solid(red));
    assert_eq!(style_from_stops(vec![red, red]), SnakeStyle::Gradient(vec![red, red]));
    assert_eq!(style_from_stops(vec![]), SnakeStyle::Gradient(vec![]));
}

#[test]
fn error_messages_name_the_problem() {
    assert_eq!(parse_style(" ").unwrap_err(), "color must not be empty");
    assert_eq!(parse_style("red-mauve-blue").unwrap_err(), "unknown color 'mauve'");
    assert_eq!(parse_style("red- Mauve -teal").unwrap_err(), "unknown color ' Mauve '");
    assert_eq!(parse_style("red-").unwrap_err(), "unknown color ''");
    assert_eq!(parse_style("-red").unwrap_err(), "unknown color ''");
}

#[test]
fn gradient_parts_are_trimmed_and_case_folded_each() {
    assert_eq!(
        parse_style(" Blue - CYAN ").unwrap(),
        SnakeStyle::Gradient(vec![
            ColorStruct::new(60, 110, 200),
            ColorStruct::new(50, 170, 170),
        ])
    );
    assert_eq!(parse_style("PARTY").unwrap(), SnakeStyle::Party);
    assert!(parse_style("rainbow-party").is_err());
}

#[test]
fn color_arg_keeps_trimmed_lowercase_text() {
    let arg = parse_color_arg("  PARTY ").unwrap();
    assert_eq!(arg.raw, "party");
    assert_eq!(arg.style, SnakeStyle::Party);
    assert!(parse_color_arg("bogus").is_err());
}

#[test]
fn apple_color_edge_cases() {
    assert_eq!(apple_color_for("-"), Color::White);
    assert_eq!(apple_color_for(""), Color::Red);
    assert_eq!(apple_color_for("Red"), Color::Red);
}

#[test]
fn apple_is_white_exactly_when_the_snake_may_be_red() {
    for s in ["red", " RED ", "green-blue", "Rainbow", "party", "cyan", "white", "Blue", "\u{a0}red\u{a0}", "\u{3000}Green\u{2028}", "\u{a0}RED-blue"] {
        let arg = parse_color_arg(s).unwrap();
        let may_be_red = match &arg.style {
            SnakeStyle::Solid(c) => *c == ColorStruct::new(200, 60, 60),
            _ => true,
        };
        assert_eq!(apple_color_for(&arg.raw) == Color::White, may_be_red, "{}", s);
    }
}
