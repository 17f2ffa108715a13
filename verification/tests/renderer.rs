use crossterm::style::Color;
use mless::configuration::{Config, Mode, ModeArgs, RegexArgs};
use mless::rendering::ansi_sequence_extractor::AnsiSequenceExtractor;
use mless::rendering::api_types::{hint, highlight, DataOverlay, Draw, StyledSegment, TextStyle};
use mless::rendering::renderer::{draw_styled_data, Paint, Renderer};

fn config(width: usize) -> Config {
    Config {
        hint_characters: "asd".to_string(),
        hint_fg: Color::AnsiValue(232),
        hint_bg: Color::AnsiValue(208),
        highlight_fg: Color::AnsiValue(232),
        highlight_bg: Color::AnsiValue(252),
        mode_switch_divider_fg: Color::AnsiValue(208),
        mode_switch_hotkey_fg: Color::Red,
        mode_switch_mode_name_fg: Color::Rgb { r: 1, g: 20, b: 255 },
        mode_switch_width: width,
        modes: vec![Mode {
            args: ModeArgs::RegexMode(RegexArgs { regexes: vec!["[a-z]+".to_string()] }),
            hotkey: 'r',
            name: "default".to_string(),
        }],
    }
}

fn paints_of(data: &str, segments: &[StyledSegment], overlays: &[DataOverlay]) -> Vec<Paint> {
    let mut paints = Vec::new();
    draw_styled_data(&mut paints, data, &AnsiSequenceExtractor::new(data), segments, overlays);
    paints
}

fn prints(text: &str) -> Vec<Paint> {
    text.chars().map(Paint::Print).collect()
}

fn style_of(style: TextStyle) -> Vec<Paint> {
    vec![
        Paint::ResetAttributes,
        Paint::Foreground(style.foreground),
        Paint::Background(style.background),
    ]
}

fn segment(start: usize, length: usize, style: TextStyle) -> StyledSegment {
    StyledSegment { start, length, style }
}

fn overlay(text: &str, location: usize) -> DataOverlay {
    DataOverlay { text: text.to_string(), location }
}

fn screen(cols: u16, rows: u16) -> Renderer {
    Renderer { rows, cols }
}

const START: &str = "\x1b[0m\x1b[0m\x1b[2J\x1b[1;1H\x1b[?7h";

#[test]
fn plain_data_is_printed_with_carriage_returns() {
    assert_eq!(paints_of("ab\ncd", &[], &[]), prints("ab\r\ncd"));
}

#[test]
fn one_line_feed_at_the_end_is_not_printed() {
    assert_eq!(paints_of("ab\ncd\n", &[], &[]), prints("ab\r\ncd"));
    assert_eq!(paints_of("ab\n\n", &[], &[]), prints("ab\r\n"));
    assert_eq!(paints_of("\n", &[], &[]), prints(""));
    assert_eq!(paints_of("", &[], &[]), prints(""));
}

#[test]
fn draws_highlights_hints_and_overlays_of_simple_text() {
    let segments = [
        segment(0, 6, highlight()),
        segment(11, 5, highlight()),
        segment(0, 1, hint()),
        segment(11, 1, hint()),
    ];
    let overlays = [overlay("a", 0), overlay("b", 11)];
    let mut expected = Vec::new();
    expected.extend(style_of(hint()));
    expected.extend(prints("a"));
    expected.extend(style_of(highlight()));
    expected.extend(prints("hings"));
    expected.extend([Paint::ResetAttributes, Paint::ResetColor]);
    expected.extend(prints(" and "));
    expected.extend(style_of(hint()));
    expected.extend(prints("b"));
    expected.extend(style_of(highlight()));
    expected.extend(prints("tuff"));
    assert_eq!(paints_of("things and stuff", &segments, &overlays), expected);
}

#[test]
fn leaving_a_segment_prints_the_sequences_before_it_again() {
    let text = "\x1b[31mRED\x1b[0m text";
    let mut expected = prints("\x1b[31m");
    expected.extend(style_of(highlight()));
    expected.extend(prints("aED"));
    expected.extend([Paint::ResetAttributes, Paint::ResetColor, Paint::Replay(0)]);
    expected.extend(prints("\x1b[0m text"));
    assert_eq!(
        paints_of(text, &[segment(5, 3, highlight())], &[overlay("a", 5)]),
        expected
    );
}

#[test]
fn sequences_inside_a_segment_are_left_out() {
    let mut expected = style_of(highlight());
    expected.extend(prints("ab"));
    assert_eq!(paints_of("a\x1b[1mb", &[segment(0, 6, highlight())], &[]), expected);
}

#[test]
fn left_out_characters_take_no_character_of_an_overlay() {
    let mut expected = style_of(highlight());
    expected.extend(prints("xy"));
    assert_eq!(
        paints_of("a\x1b[1mb", &[segment(0, 6, highlight())], &[overlay("xy", 0)]),
        expected
    );
}

#[test]
fn the_last_segment_that_covers_a_character_gives_the_style() {
    let mut expected = style_of(highlight());
    expected.extend(prints("a"));
    expected.extend(style_of(hint()));
    expected.extend(prints("b"));
    expected.extend(style_of(highlight()));
    expected.extend(prints("c"));
    assert_eq!(
        paints_of("abc", &[segment(0, 3, highlight()), segment(1, 1, hint())], &[]),
        expected
    );
}

#[test]
fn segments_of_the_same_style_that_touch_set_the_style_once() {
    let mut expected = style_of(highlight());
    expected.extend(prints("abcd"));
    assert_eq!(
        paints_of("abcd", &[segment(0, 2, highlight()), segment(2, 2, highlight())], &[]),
        expected
    );
}

#[test]
fn an_overlay_replaces_as_many_characters_as_it_has() {
    assert_eq!(paints_of("abcdef", &[], &[overlay("XY", 2)]), prints("abXYef"));
    assert_eq!(paints_of("abc", &[], &[overlay("XYZW", 1)]), prints("aXY"));
    // Offsets are those of the data, whatever was drawn over it.
    assert_eq!(
        paints_of("abcdef", &[], &[overlay("XYZ", 1), overlay("W", 2)]),
        prints("aXYZWf")
    );
    // Of two overlays at one offset the first one is drawn.
    assert_eq!(paints_of("abc", &[], &[overlay("X", 1), overlay("Y", 1)]), prints("aXc"));
}

#[test]
fn offsets_count_bytes() {
    // "ä" takes two bytes, so "b" is at offset 3.
    let mut expected = prints("a\u{e4}");
    expected.extend(style_of(hint()));
    expected.extend(prints("X"));
    expected.extend([Paint::ResetAttributes, Paint::ResetColor]);
    expected.extend(prints("c"));
    assert_eq!(
        paints_of("a\u{e4}bc", &[segment(3, 1, hint())], &[overlay("X", 3)]),
        expected
    );
}

#[test]
fn an_overlay_can_bring_a_line_feed() {
    assert_eq!(paints_of("abc", &[], &[overlay("\n", 1)]), prints("a\r\nc"));
}

#[test]
fn steps_are_added_to_the_steps_before() {
    let mut paints = vec![Paint::Clear];
    draw_styled_data(&mut paints, "a", &AnsiSequenceExtractor::new("a"), &[], &[]);
    assert_eq!(paints, vec![Paint::Clear, Paint::Print('a')]);
}

#[test]
fn a_frame_starts_from_a_known_state() {
    let frame = screen(80, 24).render("a\nb\n", &[Draw::Data], &config(25));
    assert_eq!(frame, format!("{START}a\r\nb"));
    assert_eq!(screen(80, 24).render("a\nb\n", &[], &config(25)), START);
}

#[test]
fn a_frame_holds_the_colors_of_the_segments() {
    crossterm::style::force_color_output(true);
    let instructions = [Draw::StyledData {
        styled_segments: vec![segment(5, 3, highlight())],
        text_overlays: vec![overlay("a", 5)],
    }];
    let frame = screen(80, 24).render("\x1b[31mRED\x1b[0m text", &instructions, &config(25));
    assert_eq!(
        frame,
        format!(
            "{START}\x1b[31m\x1b[0m\x1b[38;5;232m\x1b[48;5;252maED\x1b[0m\x1b[0m\x1b[31m\x1b[0m text"
        )
    );
}

#[test]
fn rendering_twice_gives_the_same_frame() {
    let instructions = [Draw::StyledData {
        styled_segments: vec![segment(0, 6, highlight()), segment(0, 1, hint())],
        text_overlays: vec![overlay("a", 0)],
    }];
    let text = "\x1b[1mthings\x1b[0m and \x1b[32mstuff\x1b[0m\n";
    let renderer = screen(80, 24);
    let first = renderer.render(text, &instructions, &config(25));
    let second = renderer.render(text, &instructions, &config(25));
    assert_eq!(first, second);
    let data = AnsiSequenceExtractor::new(text);
    assert_eq!(
        renderer.compose(text, &data, &instructions, &config(25)),
        renderer.compose(text, &data, &instructions, &config(25))
    );
}

#[test]
fn instructions_are_drawn_in_their_order() {
    let instructions = [
        Draw::Data,
        Draw::StyledData { styled_segments: vec![], text_overlays: vec![overlay("X", 0)] },
    ];
    let frame = screen(80, 24).render("ab", &instructions, &config(25));
    assert_eq!(frame, format!("{START}abXb"));
}

#[test]
fn the_dialog_is_drawn_at_the_right_edge() {
    let modes = vec![('r', "default".to_string()), ('x', "other".to_string())];
    let settings = config(6);
    let mut paints = Vec::new();
    screen(30, 4).draw_mode_selection_dialog(&mut paints, &modes, &settings);

    let divider = |row: u16| {
        let mut steps = vec![Paint::MoveTo(24, row), Paint::Foreground(Color::AnsiValue(208))];
        steps.extend(prints("\u{2502}     "));
        steps
    };
    let entry = |row: u16, label: &str, name: &str| {
        let mut steps = vec![Paint::MoveTo(25, row), Paint::Foreground(Color::Red)];
        steps.extend(prints(label));
        steps.push(Paint::ResetColor);
        steps.push(Paint::Foreground(Color::Rgb { r: 1, g: 20, b: 255 }));
        steps.extend(prints(name));
        steps
    };
    let mut expected = vec![Paint::DisableLineWrap];
    expected.extend(divider(0));
    expected.extend(divider(1));
    expected.extend(entry(1, " [r] ", "default"));
    expected.extend(divider(2));
    expected.extend(entry(2, " [x] ", "other"));
    expected.extend(divider(3));
    expected.push(Paint::EnableLineWrap);
    assert_eq!(paints, expected);
}

#[test]
fn the_dialog_is_not_drawn_on_a_narrow_screen() {
    let modes = vec![('r', "default".to_string())];
    let mut paints = Vec::new();
    screen(25, 4).draw_mode_selection_dialog(&mut paints, &modes, &config(25));
    assert!(paints.is_empty());
    screen(26, 1).draw_mode_selection_dialog(&mut paints, &modes, &config(25));
    assert_eq!(paints.first(), Some(&Paint::DisableLineWrap));
    assert_eq!(paints.last(), Some(&Paint::EnableLineWrap));
    assert_eq!(paints[1], Paint::MoveTo(1, 0));
}

#[test]
fn a_frame_with_the_dialog_moves_the_cursor() {
    crossterm::style::force_color_output(true);
    let instructions = [Draw::Data, Draw::ModeSelectionDialog(vec![('r', "re".to_string())])];
    let frame = screen(12, 2).render("ab", &instructions, &config(3));
    assert_eq!(
        frame,
        format!(
            "{START}ab\x1b[?7l\x1b[1;10H\x1b[38;5;208m\u{2502}  \x1b[2;10H\x1b[38;5;208m\u{2502}  \x1b[2;11H\x1b[38;5;9m [r] \x1b[0m\x1b[38;2;1;20;255mre\x1b[?7h"
        )
    );
}

#[test]
fn written_steps_are_what_the_terminal_is_told() {
    let data = AnsiSequenceExtractor::new("\x1b[7mx");
    let paints = [
        Paint::Clear,
        Paint::MoveTo(9, 122),
        Paint::Print('\u{e4}'),
        Paint::Replay(0),
        Paint::DisableLineWrap,
        Paint::EnableLineWrap,
        Paint::ResetColor,
        Paint::ResetAttributes,
    ];
    assert_eq!(
        Renderer::write(&paints, &data),
        "\x1b[2J\x1b[123;10H\u{e4}\x1b[7m\x1b[?7l\x1b[?7h\x1b[0m\x1b[0m"
    );
}
