use mless::hints::{HintGenerator, HintPoolGenerator};

fn check_hint_lengths(pool: &str, hint_count: usize, expected_one: usize, expected_two: usize) {
    let generator = HintPoolGenerator::new(pool);
    let hints = generator.create_hints(hint_count);

    assert_eq!(hints.len(), hint_count);

    let one_char_hints = hints
        .iter()
        .filter(|hint| hint.chars().count() == 1)
        .count();
    assert_eq!(one_char_hints, expected_one);

    let two_char_hints = hints
        .iter()
        .filter(|hint| hint.chars().count() == 2)
        .count();
    assert_eq!(two_char_hints, expected_two);

    for hint in hints {
        let all_hint_chars_in_pool = hint.chars().all(|char| pool.contains(char));
        assert!(all_hint_chars_in_pool);
    }
}

#[test]
fn returns_fewer_hints_if_not_all_can_be_represented() {
    let pool = "asd";
    let max_hints = pool.chars().count() * pool.chars().count();

    let generator = HintPoolGenerator::new(pool);
    let hints = generator.create_hints(999);

    assert_eq!(hints.len(), max_hints);
}

#[test]
fn returns_empty_vector_for_empty_pool() {
    let generator = HintPoolGenerator::new("");
    assert!(generator.create_hints(5).is_empty());
}

#[test]
fn returns_empty_vector_for_no_hints_requested() {
    let generator = HintPoolGenerator::new("asdfgjkl");
    assert!(generator.create_hints(0).is_empty());
}

#[test]
fn returns_expected_hint_lengths_for_fewer_hints_than_characters() {
    check_hint_lengths("asdfghjkl", 5, 5, 0);
}

#[test]
fn returns_expected_hint_lengths_for_as_many_hints_as_characters() {
    check_hint_lengths("asdfg", 5, 5, 0);
}

#[test]
fn returns_expected_hint_lengths_for_four_hints_of_three_characters() {
    check_hint_lengths("asd", 4, 2, 2);
}

#[test]
fn returns_expected_hint_lengths_for_five_hints_of_three_characters() {
    check_hint_lengths("asd", 5, 2, 3);
}

#[test]
fn returns_expected_hint_lengths_for_six_hints_of_three_characters() {
    check_hint_lengths("asd", 6, 1, 5);
}

#[test]
fn returns_expected_hint_lengths_for_seven_hints_of_three_characters() {
    check_hint_lengths("asd", 7, 1, 6);
}

#[test]
fn returns_expected_hint_lengths_for_eight_hints_of_three_characters() {
    check_hint_lengths("asd", 8, 0, 8);
}

#[test]
fn returns_expected_hint_lengths_for_nine_hints_of_three_characters() {
    check_hint_lengths("asd", 9, 0, 9);
}

#[test]
fn single_characters_come_first_in_the_order_of_the_pool() {
    let hints = HintPoolGenerator::new("asd").create_hints(5);
    assert_eq!(hints, vec!["a", "s", "da", "ds", "dd"]);
}

#[test]
fn eight_hints_of_three_characters_are_all_pairs() {
    let hints = HintPoolGenerator::new("asd").create_hints(8);
    assert_eq!(hints, vec!["aa", "as", "ad", "sa", "ss", "sd", "da", "ds"]);
}

#[test]
fn a_pool_of_one_character_gives_one_hint() {
    assert_eq!(HintPoolGenerator::new("a").create_hints(1), vec!["a"]);
    assert_eq!(HintPoolGenerator::new("a").create_hints(2), vec!["aa"]);
}

#[test]
fn characters_beyond_ascii_count_as_one() {
    let hints = HintPoolGenerator::new("äö").create_hints(3);
    assert_eq!(hints, vec!["ä", "öä", "öö"]);
}

#[test]
fn no_hint_begins_another_one() {
    for count in 0..30 {
        let hints = HintPoolGenerator::new("asdf").create_hints(count);
        assert_eq!(hints.len(), count.min(16));
        for (i, first) in hints.iter().enumerate() {
            for (j, second) in hints.iter().enumerate() {
                if i != j {
                    assert!(!second.starts_with(first.as_str()));
                }
            }
        }
    }
}
