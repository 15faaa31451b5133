//! The snake's color option: named colors, the `rainbow` and `party`
//! keywords, and gradients written as hyphen-joined color names.
use vstd::prelude::*;

use crate::text::{
    all_white_space, ascii_lowercase, has_char, lemma_split_on_ascii, lemma_split_on_pieces, lemma_trim_ignores_surrounding_space, lemma_trimmed_twice, lowercase_of,
    same_text, split_at_char, split_on, to_lowercase, trim, trimmed,
};
use vstd::utf8::is_ascii_chars;

verus! {

/// An RGB color.
#[derive(Copy, Clone, Debug, PartialEq, Eq, Structural)]
pub struct ColorStruct {
    pub r: u8,
    pub g: u8,
    pub b: u8,
}

impl ColorStruct {
    pub fn new(r: u8, g: u8, b: u8) -> (c: Self)
        ensures
            c == (ColorStruct { r, g, b }),
    {
        Self { r, g, b }
    }
}

/// How the snake is painted.
#[derive(Clone, Debug, PartialEq)]
pub enum SnakeStyle {
    /// One color, brightening towards the tail.
    Solid(ColorStruct),
    /// A gradient through the given stops, in order.
    Gradient(Vec<ColorStruct>),
    /// A static rainbow across the body.
    Rainbow,
    /// An animated rainbow.
    Party,
}

/// The mathematical value of a `SnakeStyle`.
pub enum StyleModel {
    Solid(ColorStruct),
    Gradient(Seq<ColorStruct>),
    Rainbow,
    Party,
}

impl View for SnakeStyle {
    type V = StyleModel;

    open spec fn view(&self) -> StyleModel {
        match self {
            SnakeStyle::Solid(c) => StyleModel::Solid(*c),
            SnakeStyle::Gradient(v) => StyleModel::Gradient(v@),
            SnakeStyle::Rainbow => StyleModel::Rainbow,
            SnakeStyle::Party => StyleModel::Party,
        }
    }
}

/// The color option as given: its lower-cased text and the style it names.
#[derive(Clone, Debug)]
pub struct ColorArg {
    pub raw: String,
    pub style: SnakeStyle,
}

/// A terminal color: the named ones the game uses, or an RGB value.
#[derive(Copy, Clone, Debug, PartialEq, Eq, Structural)]
pub enum Color {
    White,
    Red,
    Blue,
    Rgb { r: u8, g: u8, b: u8 },
}

/// The RGB value of each color name (already lower-case and trimmed).
pub open spec fn rgb_by_name(name: Seq<char>) -> Option<(u8, u8, u8)> {
    if name == "green"@ {
        Some((66u8, 168u8, 50u8))
    } else if name == "red"@ {
        Some((200u8, 60u8, 60u8))
    } else if name == "blue"@ {
        Some((60u8, 110u8, 200u8))
    } else if name == "yellow"@ {
        Some((200u8, 180u8, 40u8))
    } else if name == "orange"@ {
        Some((220u8, 120u8, 30u8))
    } else if name == "magenta"@ {
        Some((170u8, 60u8, 170u8))
    } else if name == "cyan"@ {
        Some((50u8, 170u8, 170u8))
    } else if name == "white"@ {
        Some((210u8, 210u8, 210u8))
    } else {
        None
    }
}

/// The RGB value of a color name as written by the user: trimmed, then
/// lower-cased, then looked up.
pub open spec fn rgb_of_written(name: Seq<char>) -> Option<(u8, u8, u8)> {
    rgb_by_name(lowercase_of(trimmed(name)))
}

/// Lower-casing as `str::to_lowercase` does it.
pub open spec fn unicode_lower() -> spec_fn(Seq<char>) -> Seq<char> {
    |x: Seq<char>| lowercase_of(x)
}

/// Lower-casing of the ASCII letters alone, which is what `str::to_lowercase`
/// does to ASCII text.
pub open spec fn ascii_lower() -> spec_fn(Seq<char>) -> Seq<char> {
    |x: Seq<char>| ascii_lowercase(x)
}

/// The color of one gradient part: trimmed, lower-cased by `low`, looked up.
pub open spec fn part_color_by(part: Seq<char>, low: spec_fn(Seq<char>) -> Seq<char>) -> Option<
    ColorStruct,
> {
    match rgb_by_name(low(trimmed(part))) {
        Some(c) => Some(ColorStruct { r: c.0, g: c.1, b: c.2 }),
        None => None,
    }
}

/// The colors of all parts, in order, or the first part that names no color.
pub open spec fn collect_stops_by(
    parts: Seq<Seq<char>>,
    low: spec_fn(Seq<char>) -> Seq<char>,
) -> Result<Seq<ColorStruct>, Seq<char>>
    decreases parts.len(),
{
    if parts.len() == 0 {
        Ok(Seq::<ColorStruct>::empty())
    } else {
        match collect_stops_by(parts.drop_last(), low) {
            Err(p) => Err(p),
            Ok(stops) => match part_color_by(parts.last(), low) {
                Some(c) => Ok(stops.push(c)),
                None => Err(parts.last()),
            },
        }
    }
}

/// The style named by a keyword (already lower-case), if it is one.
pub open spec fn keyword_model(lower: Seq<char>) -> Option<StyleModel> {
    if lower == "rainbow"@ {
        Some(StyleModel::Rainbow)
    } else if lower == "party"@ {
        Some(StyleModel::Party)
    } else {
        None
    }
}

/// One stop is a solid color; any other number is a gradient.
pub open spec fn model_from_stops(stops: Seq<ColorStruct>) -> StyleModel {
    if stops.len() == 1 {
        StyleModel::Solid(stops[0])
    } else {
        StyleModel::Gradient(stops)
    }
}

/// The message for a part that names no color.
pub open spec fn unknown_color_message(part: Seq<char>) -> Seq<char> {
    "unknown color '"@ + part + "'"@
}

/// What the color option means, with text lower-cased by `low`: the style,
/// or the error message.
pub open spec fn style_by(s: Seq<char>, low: spec_fn(Seq<char>) -> Seq<char>) -> Result<
    StyleModel,
    Seq<char>,
> {
    let t = trimmed(s);
    if t.len() == 0 {
        Err("color must not be empty"@)
    } else if keyword_model(low(t)) is Some {
        Ok(keyword_model(low(t))->0)
    } else {
        match collect_stops_by(split_on(t, '-'), low) {
            Err(part) => Err(unknown_color_message(part)),
            Ok(stops) => Ok(model_from_stops(stops)),
        }
    }
}

/// What the color option means: the style, or the error message.
pub open spec fn style_of(s: Seq<char>) -> Result<StyleModel, Seq<char>> {
    style_by(s, unicode_lower())
}

/// White space around the color option changes nothing: neither the style
/// nor the error, nor the text kept with the option, nor what a single color
/// name means.
pub proof fn lemma_surrounding_space_ignored(s: Seq<char>, pre: Seq<char>, post: Seq<char>)
    requires
        all_white_space(pre),
        all_white_space(post),
    ensures
        style_of(pre + s + post) == style_of(s),
        lowercase_of(trimmed(pre + s + post)) == lowercase_of(trimmed(s)),
        rgb_of_written(pre + s + post) == rgb_of_written(s),
{
    lemma_trim_ignores_surrounding_space(s, pre, post);
}

/// The RGB value of a lower-case, trimmed color name.
pub fn color_by_name(name: &str) -> (r: Option<(u8, u8, u8)>)
    ensures
        r == rgb_by_name(name@),
{
    if same_text(name, "green") {
        Some((66, 168, 50))
    } else if same_text(name, "red") {
        Some((200, 60, 60))
    } else if same_text(name, "blue") {
        Some((60, 110, 200))
    } else if same_text(name, "yellow") {
        Some((200, 180, 40))
    } else if same_text(name, "orange") {
        Some((220, 120, 30))
    } else if same_text(name, "magenta") {
        Some((170, 60, 170))
    } else if same_text(name, "cyan") {
        Some((50, 170, 170))
    } else if same_text(name, "white") {
        Some((210, 210, 210))
    } else {
        None
    }
}

/// The RGB value of a color name, ignoring surrounding white space and case.
pub fn named_color_rgb(name: &str) -> (r: Option<(u8, u8, u8)>)
    ensures
        r == rgb_of_written(name@),
        is_ascii_chars(name@) ==> r == rgb_by_name(ascii_lowercase(trimmed(name@))),
{
    proof {
        lemma_trimmed_twice(name@);
    }
    let lower = to_lowercase(trim(name));
    color_by_name(lower.as_str())
}

/// The style named by a keyword (lower-case): `rainbow` or `party`.
pub fn keyword_style(lower: &str) -> (r: Option<SnakeStyle>)
    ensures
        match r {
            Some(st) => keyword_model(lower@) == Some(st@),
            None => keyword_model(lower@) is None,
        },
{
    if same_text(lower, "rainbow") {
        Some(SnakeStyle::Rainbow)
    } else if same_text(lower, "party") {
        Some(SnakeStyle::Party)
    } else {
        None
    }
}

/// A single stop makes a solid color; any other number of stops a gradient.
pub fn style_from_stops(stops: Vec<ColorStruct>) -> (st: SnakeStyle)
    ensures
        st@ == model_from_stops(stops@),
{
    if stops.len() == 1 {
        SnakeStyle::Solid(stops[0])
    } else {
        SnakeStyle::Gradient(stops)
    }
}

/// Parses the snake color option: a color name, `rainbow`, `party`, or a
/// gradient of hyphen-joined color names, ignoring surrounding white space
/// and case.
pub fn parse_style(s: &str) -> (r: Result<SnakeStyle, String>)
    ensures
        match r {
            Ok(st) => style_of(s@) == Ok::<StyleModel, Seq<char>>(st@),
            Err(m) => style_of(s@) == Err::<StyleModel, Seq<char>>(m@),
        },
        is_ascii_chars(s@) ==> style_of(s@) == style_by(s@, ascii_lower()),
{
    let t = trim(s);
    proof {
        lemma_trimmed_twice(s@);
    }
    if t.is_empty() {
        return Err(String::from_str("color must not be empty"));
    }
    let lower = to_lowercase(t);
    match keyword_style(lower.as_str()) {
        Some(st) => {
            return Ok(st);
        },
        None => {},
    }
    let parts = split_at_char(t, '-');
    let ghost all = split_on(t@, '-');
    proof {
        if is_ascii_chars(s@) {
            lemma_split_on_ascii(t@, '-');
        }
    }
    let mut stops: Vec<ColorStruct> = Vec::new();
    let mut i: usize = 0;
    assert(all.take(0) =~= Seq::<Seq<char>>::empty());
    while i < parts.len()
        invariant
            trimmed(s@) == t@,
            t@.len() > 0,
            keyword_model(lowercase_of(t@)) is None,
            is_ascii_chars(s@) ==> lowercase_of(t@) == ascii_lowercase(t@),
            is_ascii_chars(s@) ==> forall|k: int|
                0 <= k < all.len() ==> is_ascii_chars(#[trigger] all[k]),
            all == split_on(t@, '-'),
            i <= parts@.len(),
            parts@.len() == all.len(),
            forall|k: int| 0 <= k < parts@.len() ==> #[trigger] parts@[k]@ == all[k],
            collect_stops_by(all.take(i as int), unicode_lower()) == Ok::<
                Seq<ColorStruct>,
                Seq<char>,
            >(stops@),
            is_ascii_chars(s@) ==> collect_stops_by(all.take(i as int), ascii_lower())
                == collect_stops_by(all.take(i as int), unicode_lower()),
        decreases parts@.len() - i,
    {
        let part = parts[i];
        assert(all.take(i + 1).drop_last() =~= all.take(i as int));
        assert(all.take(i + 1).last() == part@);
        let found = named_color_rgb(part);
        proof {
            if is_ascii_chars(s@) {
                assert(is_ascii_chars(all[i as int]));
                assert(part_color_by(part@, ascii_lower()) == part_color_by(part@, unicode_lower()));
            }
        }
        match found {
            Some(c) => {
                stops.push(ColorStruct::new(c.0, c.1, c.2));
            },
            None => {
                let mut m = String::from_str("unknown color '");
                m.append(part);
                m.append("'");
                proof {
                    assert(part_color_by(part@, unicode_lower()) is None);
                    assert(collect_stops_by(all.take(i + 1), unicode_lower()) == Err::<
                        Seq<ColorStruct>,
                        Seq<char>,
                    >(part@));
                    lemma_collect_stops_prefix(all, i as int + 1, unicode_lower());
                    if is_ascii_chars(s@) {
                        lemma_collect_stops_prefix(all, i as int + 1, ascii_lower());
                    }
                    assert(m@ == unknown_color_message(part@));
                }
                return Err(m);
            },
        }
        i = i + 1;
    }
    assert(all.take(all.len() as int) =~= all);
    Ok(style_from_stops(stops))
}

/// A failing prefix makes the whole sequence fail on the same part.
proof fn lemma_collect_stops_prefix(
    parts: Seq<Seq<char>>,
    k: int,
    low: spec_fn(Seq<char>) -> Seq<char>,
)
    requires
        0 <= k <= parts.len(),
        collect_stops_by(parts.take(k), low) is Err,
    ensures
        collect_stops_by(parts, low) == collect_stops_by(parts.take(k), low),
    decreases parts.len() - k,
{
    if k < parts.len() {
        assert(parts.take(k + 1).drop_last() =~= parts.take(k));
        lemma_collect_stops_prefix(parts, k + 1, low);
    } else {
        assert(parts.take(k) =~= parts);
    }
}

/// The stops of a gradient are the colors its parts name, one per part, in
/// order: the parts give stops exactly when each of them names a color; the
/// `k`-th stop is the color of the `k`-th part; and a refused list names a
/// part that is no color, every part before it being one.
pub proof fn lemma_stops_are_the_named_colors(
    parts: Seq<Seq<char>>,
    low: spec_fn(Seq<char>) -> Seq<char>,
)
    ensures
        collect_stops_by(parts, low) is Ok <==> forall|k: int|
            0 <= k < parts.len() ==> #[trigger] part_color_by(parts[k], low) is Some,
        (forall|k: int| 0 <= k < parts.len() ==> #[trigger] part_color_by(parts[k], low) is Some)
            ==> collect_stops_by(parts, low) == Ok::<Seq<ColorStruct>, Seq<char>>(
            Seq::new(parts.len(), |k: int| part_color_by(parts[k], low)->Some_0),
        ),
        collect_stops_by(parts, low) matches Err(p) ==> exists|k: int|
            0 <= k < parts.len() && parts[k] == p && #[trigger] part_color_by(parts[k], low) is None
                && forall|j: int| 0 <= j < k ==> part_color_by(parts[j], low) is Some,
    decreases parts.len(),
{
    if parts.len() > 0 {
        let init = parts.drop_last();
        let n = parts.len() - 1;
        lemma_stops_are_the_named_colors(init, low);
        assert forall|k: int| 0 <= k < n implies #[trigger] init[k] == parts[k] by {}
        if forall|k: int| 0 <= k < parts.len() ==> #[trigger] part_color_by(parts[k], low) is Some {
            assert forall|k: int| 0 <= k < init.len() implies #[trigger] part_color_by(
                init[k],
                low,
            ) is Some by {
                assert(init[k] == parts[k]);
                assert(part_color_by(parts[k], low) is Some);
            }
            assert(part_color_by(parts[n], low) is Some);
            assert(Seq::new(parts.len(), |k: int| part_color_by(parts[k], low)->Some_0) =~= Seq::new(
                init.len(),
                |k: int| part_color_by(init[k], low)->Some_0,
            ).push(part_color_by(parts.last(), low)->Some_0));
        }
        match collect_stops_by(init, low) {
            Err(p) => {
                let k = choose|k: int|
                    0 <= k < init.len() && init[k] == p && #[trigger] part_color_by(init[k], low) is None
                        && forall|j: int| 0 <= j < k ==> part_color_by(init[j], low) is Some;
                assert(parts[k] == p && part_color_by(parts[k], low) is None);
                assert forall|j: int| 0 <= j < k implies part_color_by(parts[j], low) is Some by {
                    assert(init[j] == parts[j]);
                }
                assert(!(part_color_by(init[k], low) is Some));
            },
            Ok(stops) => {
                assert forall|j: int| 0 <= j < n implies part_color_by(parts[j], low) is Some by {
                    assert(init[j] == parts[j]);
                    assert(part_color_by(init[j], low) is Some);
                }
                if part_color_by(parts.last(), low) is None {
                    assert(part_color_by(parts[n], low) is None);
                }
            },
        }
    } else {
        assert(Seq::new(0, |k: int| part_color_by(parts[k], low)->Some_0) =~= Seq::<
            ColorStruct,
        >::empty());
    }
}

/// A gradient keeps every color it is given: when the trimmed option is not
/// a keyword and each of its hyphen-separated parts names a color, the option
/// parses, with exactly those colors as its stops, in order (a single part
/// giving a solid color). An option is refused only when it is empty or one
/// of its parts names no color, and the message then names that part.
pub proof fn lemma_every_named_part_is_a_stop(s: Seq<char>)
    ensures
        trimmed(s).len() > 0 && keyword_model(lowercase_of(trimmed(s))) is None && (forall|k: int|
            0 <= k < split_on(trimmed(s), '-').len() ==> #[trigger] rgb_of_written(
                split_on(trimmed(s), '-')[k],
            ) is Some) ==> style_of(s) == Ok::<StyleModel, Seq<char>>(
            model_from_stops(
                Seq::new(
                    split_on(trimmed(s), '-').len(),
                    |k: int|
                        (ColorStruct {
                            r: rgb_of_written(split_on(trimmed(s), '-')[k])->Some_0.0,
                            g: rgb_of_written(split_on(trimmed(s), '-')[k])->Some_0.1,
                            b: rgb_of_written(split_on(trimmed(s), '-')[k])->Some_0.2,
                        }),
                ),
            ),
        ),
        style_of(s) matches Err(m) ==> (trimmed(s).len() == 0 && m == "color must not be empty"@)
            || exists|k: int|
            0 <= k < split_on(trimmed(s), '-').len() && rgb_of_written(
                #[trigger] split_on(trimmed(s), '-')[k],
            ) is None && m == unknown_color_message(split_on(trimmed(s), '-')[k]),
{
    let t = trimmed(s);
    let parts = split_on(t, '-');
    let low = unicode_lower();
    lemma_stops_are_the_named_colors(parts, low);
    assert forall|k: int| 0 <= k < parts.len() implies #[trigger] part_color_by(parts[k], low)
        == (match rgb_of_written(parts[k]) {
        Some(c) => Some(ColorStruct { r: c.0, g: c.1, b: c.2 }),
        None => None,
    }) by {}
    if t.len() > 0 && keyword_model(lowercase_of(t)) is None && (forall|k: int|
        0 <= k < parts.len() ==> #[trigger] rgb_of_written(parts[k]) is Some) {
        assert forall|k: int| 0 <= k < parts.len() implies #[trigger] part_color_by(
            parts[k],
            low,
        ) is Some by {
            assert(rgb_of_written(parts[k]) is Some);
        }
        assert(Seq::new(parts.len(), |k: int| part_color_by(parts[k], low)->Some_0) =~= Seq::new(
            parts.len(),
            |k: int|
                (ColorStruct {
                    r: rgb_of_written(parts[k])->Some_0.0,
                    g: rgb_of_written(parts[k])->Some_0.1,
                    b: rgb_of_written(parts[k])->Some_0.2,
                }),
        ));
    }
    if t.len() > 0 && keyword_model(lowercase_of(t)) is None {
        match collect_stops_by(parts, low) {
            Err(p) => {
                let k = choose|k: int|
                    0 <= k < parts.len() && parts[k] == p && #[trigger] part_color_by(parts[k], low) is None
                        && forall|j: int| 0 <= j < k ==> part_color_by(parts[j], low) is Some;
                assert(rgb_of_written(parts[k]) is None);
            },
            Ok(_) => {},
        }
    }
}

/// The styles that can paint the snake red, against which the apple is
/// white: gradients, the rainbow styles and solid red.
pub open spec fn may_be_red(m: StyleModel) -> bool {
    match m {
        StyleModel::Solid(c) => c == (ColorStruct { r: 200, g: 60, b: 60 }),
        _ => true,
    }
}

proof fn lemma_collect_stops_len(parts: Seq<Seq<char>>, low: spec_fn(Seq<char>) -> Seq<char>)
    ensures
        collect_stops_by(parts, low) matches Ok(stops) ==> stops.len() == parts.len(),
    decreases parts.len(),
{
    if parts.len() > 0 {
        lemma_collect_stops_len(parts.drop_last(), low);
    }
}

proof fn lemma_apple_follows_style(s: Seq<char>)
    requires
        lowercase_of(trimmed(s)).contains('-') <==> trimmed(s).contains('-'),
        style_of(s) is Ok,
    ensures
        match style_of(s) {
            Ok(m) => (apple_color_of(lowercase_of(trimmed(s))) == Color::White <==> may_be_red(m)),
            Err(_) => true,
        },
{
    let t = trimmed(s);
    let raw = lowercase_of(t);
    lemma_trimmed_twice(s);
    lemma_split_on_pieces(t, '-');
    lemma_collect_stops_len(split_on(t, '-'), unicode_lower());
    assert(t.len() > 0);
    if keyword_model(raw) is None {
        let parts = split_on(t, '-');
        assert(collect_stops_by(parts, unicode_lower()) is Ok);
        let stops = collect_stops_by(parts, unicode_lower())->Ok_0;
        assert(style_of(s) == Ok::<StyleModel, Seq<char>>(model_from_stops(stops)));
        if t.contains('-') {
            assert(raw.contains('-'));
            assert(stops.len() >= 2);
            assert(apple_color_of(raw) == Color::White);
        } else {
            assert(!raw.contains('-'));
            assert(parts.drop_last() =~= Seq::<Seq<char>>::empty());
            assert(parts.last() == t);
            assert(collect_stops_by(parts.drop_last(), unicode_lower()) == Ok::<
                Seq<ColorStruct>,
                Seq<char>,
            >(Seq::empty()));
            assert(part_color_by(t, unicode_lower()) is Some);
            let c = part_color_by(t, unicode_lower())->Some_0;
            assert(stops =~= seq![c]);
            assert(rgb_by_name(lowercase_of(trimmed(t))) == rgb_by_name(raw));
            assert(raw != "rainbow"@ && raw != "party"@);
            assert(apple_color_of(raw) == Color::White <==> raw == "red"@);
            reveal_strlit("red");
            reveal_strlit("green");
            if raw == "red"@ {
                assert("red"@.len() == 3);
                assert("green"@.len() == 5);
                assert(rgb_by_name(raw) == Some((200u8, 60u8, 60u8)));
            }
            if c == (ColorStruct { r: 200, g: 60, b: 60 }) {
                assert(rgb_by_name(raw) == Some((200u8, 60u8, 60u8)));
                assert(raw == "red"@);
            }
        }
    } else {
        assert(raw == "rainbow"@ || raw == "party"@);
    }
}

/// Parses the color option and keeps its trimmed, lower-cased text. The
/// apple is then white exactly when the style may paint the snake red.
pub fn parse_color_arg(s: &str) -> (r: Result<ColorArg, String>)
    ensures
        match r {
            Ok(arg) => {
                &&& style_of(s@) == Ok::<StyleModel, Seq<char>>(arg.style@)
                &&& arg.raw@ == lowercase_of(trimmed(s@))
                &&& is_ascii_chars(s@) ==> arg.raw@ == ascii_lowercase(trimmed(s@))
                &&& (apple_color_of(arg.raw@) == Color::White <==> may_be_red(arg.style@))
            },
            Err(m) => style_of(s@) == Err::<StyleModel, Seq<char>>(m@),
        },
        is_ascii_chars(s@) ==> style_of(s@) == style_by(s@, ascii_lower()),
{
    proof {
        lemma_trimmed_twice(s@);
    }
    match parse_style(s) {
        Ok(style) => {
            let t = trim(s);
            let raw = to_lowercase(t);
            proof {
                lemma_apple_follows_style(s@);
            }
            Ok(ColorArg { raw, style })
        },
        Err(m) => Err(m),
    }
}

/// The apple is white when the snake may be red (gradients, `red`,
/// `rainbow`, `party`) and red otherwise.
pub open spec fn apple_color_of(raw: Seq<char>) -> Color {
    if raw.contains('-') || raw == "red"@ || raw == "rainbow"@ || raw == "party"@ {
        Color::White
    } else {
        Color::Red
    }
}

/// The apple's color for the lower-cased color option `raw`.
pub fn apple_color_for(raw: &str) -> (c: Color)
    ensures
        c == apple_color_of(raw@),
{
    if has_char(raw, '-') || same_text(raw, "red") || same_text(raw, "rainbow") || same_text(
        raw,
        "party",
    ) {
        Color::White
    } else {
        Color::Red
    }
}

} // verus!
