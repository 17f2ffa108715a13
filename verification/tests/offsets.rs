use mless::offsets::{get_original_index, remove_ranges};

#[test]
fn get_original_index_returns_correct_value_before_the_ranges() {
    assert_eq!(get_original_index(&[(2, 4), (6, 8)], 0), 0);
    assert_eq!(get_original_index(&[(2, 4), (6, 8)], 1), 1);
}

#[test]
fn get_original_index_returns_correct_value_behind_one_range() {
    assert_eq!(get_original_index(&[(2, 4), (6, 8)], 2), 4);
    assert_eq!(get_original_index(&[(2, 4), (6, 8)], 3), 5);
}

#[test]
fn get_original_index_returns_correct_value_behind_both_ranges() {
    assert_eq!(get_original_index(&[(2, 4), (6, 8)], 4), 8);
}

#[test]
fn get_original_index_returns_the_index_without_ranges() {
    assert_eq!(get_original_index(&[], 4), 4);
}

#[test]
fn get_original_index_follows_the_documented_example() {
    // before removal [0, 1, 2, 3, 4, 5, 6]
    // after removal  [0, 2, 3, 6]
    assert_eq!(get_original_index(&[(1, 2), (4, 6)], 3), 6);
}

#[test]
fn remove_ranges_leaves_the_rest_in_order() {
    assert_eq!(remove_ranges("0123456", &[(1, 2), (4, 6)]), "0236");
    assert_eq!(remove_ranges("0123456", &[]), "0123456");
    assert_eq!(remove_ranges("0123456", &[(0, 7)]), "");
    assert_eq!(remove_ranges("äöü", &[(2, 4)]), "äü");
}

