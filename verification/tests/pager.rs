use mless::pager::{clip_line, get_page};

fn page_of(source: &str, rows: usize, cols: usize) -> String {
    let lines: Vec<String> = source.lines().map(|line| line.to_string()).collect();
    get_page(&lines, rows, cols)
}

fn clip(line: &str, rows: usize, width: usize) -> (String, usize) {
    clip_line(line, rows, width)
}

#[test]
fn get_page_returns_expected_output_when_input_is_empty() {
    assert_eq!(page_of("", 10, 10), "");
}

#[test]
fn get_page_returns_expected_output_when_input_shorter_than_page() {
    assert_eq!(page_of("test\ntest", 10, 10), "test\ntest");
}

#[test]
fn get_page_returns_expected_output_when_input_longer_than_page() {
    assert_eq!(page_of("test1\ntest2\ntest3", 2, 10), "test1\ntest2");
}

#[test]
fn get_page_returns_expected_output_when_input_wider_than_page() {
    assert_eq!(
        page_of("things and stuff\nstuff and things", 10, 10),
        "things and stuff\nstuff and things"
    );
}

#[test]
fn get_page_returns_expected_output_when_input_longer_and_wider_than_page() {
    assert_eq!(
        page_of("things and stuff\nstuff and things", 3, 10),
        "things and stuff\nstuff and "
    );
}

#[test]
fn get_page_returns_expected_output_when_input_contains_non_ascii_characters() {
    assert_eq!(page_of("fl\u{e4}der v\u{e4}der", 2, 6), "fl\u{e4}der v\u{e4}der");
}

#[test]
fn get_page_returns_expected_output_when_input_contains_emojis() {
    assert_eq!(
        page_of("\u{1f600}\u{1f600}abcde", 2, 4),
        "\u{1f600}\u{1f600}abcd"
    );
}

#[test]
fn get_page_keeps_empty_lines() {
    assert_eq!(page_of("a\n\nb\nc", 3, 10), "a\n\nb");
}

#[test]
fn get_page_gives_the_first_line_when_there_is_no_row() {
    assert_eq!(page_of("first\nsecond", 0, 10), "first");
}

#[test]
fn clip_line_returns_expected_output_when_input_empty() {
    assert_eq!(clip("", 1, 5), ("".to_string(), 1));
}

#[test]
fn clip_line_returns_expected_output_when_input_shorter_than_width() {
    assert_eq!(clip("test", 1, 5), ("test".to_string(), 1));
}

#[test]
fn clip_line_returns_expected_output_when_input_longer_than_width() {
    assert_eq!(clip("testing", 1, 5), ("testi".to_string(), 1));
}

#[test]
fn clip_line_returns_expected_output_when_input_contains_non_ascii_characters() {
    assert_eq!(clip("fl\u{e4}der", 1, 5), ("fl\u{e4}de".to_string(), 1));
}

#[test]
fn clip_line_returns_expected_output_when_input_contains_emojis() {
    assert_eq!(
        clip("\u{1f600}\u{1f600}abcde", 1, 5),
        ("\u{1f600}\u{1f600}a".to_string(), 1)
    );
}

#[test]
fn clip_line_returns_expected_output_when_input_contains_emojis_at_the_cut_edge() {
    assert_eq!(clip("abc\u{1f600}\u{1f600}", 1, 4), ("abc".to_string(), 1));
}

#[test]
fn clip_line_returns_expected_output_when_multiple_rows_requested() {
    assert_eq!(clip("this is a test", 2, 5), ("this is a ".to_string(), 2));
}

#[test]
fn clip_line_returns_expected_output_with_multiple_rows_and_emojis_on_cut_edge() {
    assert_eq!(
        clip("abc\u{1f600}a\u{1f600}", 2, 4),
        ("abc\u{1f600}a".to_string(), 2)
    );
}

#[test]
fn clip_line_counts_the_rows_of_a_line_that_fits() {
    assert_eq!(clip("this is a test", 5, 5), ("this is a test".to_string(), 3));
}
