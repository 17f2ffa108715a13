use mless::rendering::ansi_sequence_extractor::{find_sequences, AnsiSequenceExtractor};

fn found_by_the_regex_crate(text: &str) -> Vec<(usize, usize)> {
    regex::Regex::new("\x1b\\[[^m]+m")
        .unwrap()
        .find_iter(text)
        .map(|found| (found.start(), found.end()))
        .collect()
}

#[test]
fn finds_the_sequences_of_colored_text() {
    let text = "\x1b[0;31mthings\x1b[0m and \x1b[0;32mstuff\x1b[0m";
    assert_eq!(
        find_sequences(text.as_bytes()),
        vec![(0, 7), (13, 17), (22, 29), (34, 38)]
    );
}

#[test]
fn finds_nothing_in_plain_text() {
    assert!(find_sequences(b"plain text with m and [ in it").is_empty());
    assert!(find_sequences(b"").is_empty());
}

#[test]
fn a_sequence_needs_something_between_bracket_and_terminator() {
    assert!(find_sequences(b"\x1b[m").is_empty());
    assert_eq!(find_sequences(b"\x1b[m\x1b[0m"), vec![(3, 7)]);
}

#[test]
fn a_sequence_needs_a_terminator() {
    assert!(find_sequences(b"\x1b[31 and no end").is_empty());
    assert!(find_sequences(b"\x1b[").is_empty());
    assert!(find_sequences(b"\x1b").is_empty());
}

#[test]
fn a_sequence_runs_to_the_first_terminator() {
    assert_eq!(find_sequences(b"\x1b[1mmm"), vec![(0, 4)]);
    assert_eq!(find_sequences(b"\x1b[\x1b[31m"), vec![(0, 7)]);
    assert_eq!(find_sequences(b"a\x1b[1\n2mb"), vec![(1, 7)]);
}

#[test]
fn finds_what_the_regex_crate_finds() {
    let texts = [
        "",
        "plain",
        "\x1b[0m",
        "\x1b[m\x1b[0m",
        "\x1b[\x1b[31mred\x1b[0m",
        "a\x1b[1;2;3mb\x1b[0mc\x1b[",
        "\x1b[38;5;208morange\x1b[0m\n\x1b[1mbold\x1b[0m\n",
        "m\x1b[m\x1b[mm\x1b[xm",
        "\u{e4}\x1b[\u{f6}m\u{fc}\x1b[0m\u{1f600}",
        "\x1b\x1b[[0m\x1b[0",
    ];
    for text in texts {
        assert_eq!(find_sequences(text.as_bytes()), found_by_the_regex_crate(text));
    }
}

#[test]
fn extractor_tells_what_lies_inside_a_sequence() {
    let extractor = AnsiSequenceExtractor::new("ab\x1b[31mcd\x1b[0m");
    assert_eq!(extractor.count(), 2);
    assert!(!extractor.is_inside_sequence(0));
    assert!(!extractor.is_inside_sequence(1));
    assert!(extractor.is_inside_sequence(2));
    assert!(extractor.is_inside_sequence(6));
    assert!(!extractor.is_inside_sequence(7));
    assert!(!extractor.is_inside_sequence(8));
    assert!(extractor.is_inside_sequence(9));
    assert!(extractor.is_inside_sequence(12));
    assert!(!extractor.is_inside_sequence(13));
}

#[test]
fn extractor_gives_the_sequences_that_end_before_a_location() {
    let extractor = AnsiSequenceExtractor::new("ab\x1b[31mcd\x1b[0m");
    assert!(extractor.get_all_sequences_before(0).is_empty());
    // The first sequence ends at 7: it is given from 8 on.
    assert!(extractor.get_all_sequences_before(7).is_empty());
    assert_eq!(extractor.get_all_sequences_before(8), vec!["\x1b[31m"]);
    assert_eq!(extractor.get_all_sequences_before(13), vec!["\x1b[31m"]);
    assert_eq!(extractor.get_all_sequences_before(14), vec!["\x1b[31m", "\x1b[0m"]);
    assert_eq!(extractor.sequence(1), "\x1b[0m");
}

#[test]
fn extractor_keeps_characters_beyond_ascii_whole() {
    let extractor = AnsiSequenceExtractor::new("\u{e4}\x1b[\u{f6}m\u{fc}");
    assert_eq!(extractor.get_all_sequences_before(100), vec!["\x1b[\u{f6}m"]);
}
