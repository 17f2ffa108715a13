use mless::hints::HintPoolGenerator;
use mless::modes::regex::hint_hit_map::{HintHitMap, Hit};

fn hit(start: usize, length: usize, text: &str) -> Hit {
    Hit {
        start,
        length,
        text: text.to_string(),
    }
}

fn three_pairs(first: &str, second: &str, third: &str) -> HintHitMap {
    HintHitMap {
        pairs: vec![
            (first.to_string(), hit(0, 5, "stuff")),
            (second.to_string(), hit(5, 6, "things")),
            (third.to_string(), hit(9, 7, "fidgets")),
        ],
    }
}

#[test]
fn get_hit_returns_some_hit_when_exists() {
    let hint_hit_map = HintHitMap {
        pairs: vec![
            ("a".to_string(), Hit {start: 0, length: 5, text: "stuff".to_string() }),
            ("b".to_string(), Hit {start: 5, length: 6, text: "things".to_string() }),
            ("c".to_string(), Hit {start: 9, length: 7, text: "fidgets".to_string() }),
        ],
    };

    let hit = hint_hit_map.get_hit("b").unwrap();
    assert_eq!(hit.text, hint_hit_map.pairs[1].1.text);
}

#[test]
fn get_hit_returns_none_when_hit_does_not_exist() {
    let hint_hit_map = HintHitMap {
        pairs: vec![
            ("a".to_string(), Hit {start: 0, length: 5, text: "stuff".to_string() }),
            ("b".to_string(), Hit {start: 5, length: 6, text: "things".to_string() }),
            ("c".to_string(), Hit {start: 9, length: 7, text: "fidgets".to_string() }),
        ],
    };

    let hit = hint_hit_map.get_hit("x");
    assert!(hit.is_none());
}

#[test]
fn get_hit_returns_the_first_hit_of_a_hint() {
    let hint_hit_map = HintHitMap {
        pairs: vec![
            ("a".to_string(), hit(0, 5, "stuff")),
            ("b".to_string(), hit(5, 6, "things")),
            ("a".to_string(), hit(20, 5, "stuff")),
        ],
    };
    assert_eq!(hint_hit_map.get_hit("a").unwrap().start, 0);
}

#[test]
fn has_hint_with_prefix_returns_true_for_the_start_of_a_hint() {
    assert!(three_pairs("aa", "ab", "ac").has_hint_with_prefix("a"));
}

#[test]
fn has_hint_with_prefix_returns_false_when_no_hint_starts_with_it() {
    assert!(!three_pairs("aa", "ab", "ac").has_hint_with_prefix("x"));
}

#[test]
fn has_hint_with_prefix_takes_a_whole_hint_and_nothing_longer() {
    let map = three_pairs("aa", "ab", "ac");
    assert!(map.has_hint_with_prefix("ab"));
    assert!(map.has_hint_with_prefix(""));
    assert!(!map.has_hint_with_prefix("aba"));
}

#[test]
fn hits_with_the_same_text_share_a_hint() {
    let hits = vec![
        hit(0, 3, "one"),
        hit(4, 3, "two"),
        hit(8, 3, "one"),
        hit(12, 5, "three"),
        hit(18, 3, "two"),
    ];
    let generator = HintPoolGenerator::new("asd");
    let map = HintHitMap::new(hits, &generator);
    let hints: Vec<&str> = map.pairs.iter().map(|(hint, _)| hint.as_str()).collect();
    assert_eq!(hints, vec!["a", "s", "a", "d", "s"]);
    let starts: Vec<usize> = map.pairs.iter().map(|(_, hit)| hit.start).collect();
    assert_eq!(starts, vec![0, 4, 8, 12, 18]);
}

#[test]
fn the_generator_is_asked_for_one_hint_for_each_distinct_text() {
    let hits = vec![
        hit(0, 1, "a"),
        hit(1, 1, "b"),
        hit(2, 1, "a"),
        hit(3, 1, "c"),
        hit(4, 1, "d"),
    ];
    // Four distinct texts with a pool of three characters: two single
    // characters and two pairs.
    let map = HintHitMap::new(hits, &HintPoolGenerator::new("xyz"));
    let hints: Vec<&str> = map.pairs.iter().map(|(hint, _)| hint.as_str()).collect();
    assert_eq!(hints, vec!["x", "y", "x", "zx", "zy"]);
}

#[test]
fn hits_beyond_the_hints_are_dropped() {
    let hits = vec![
        hit(0, 3, "one"),
        hit(4, 3, "two"),
        hit(8, 3, "one"),
        hit(12, 5, "three"),
        hit(18, 3, "two"),
    ];
    let map = HintHitMap::from_hints(hits, &vec!["a".to_string(), "b".to_string()]);
    let hints: Vec<&str> = map.pairs.iter().map(|(hint, _)| hint.as_str()).collect();
    assert_eq!(hints, vec!["a", "b", "a"]);
    assert_eq!(map.pairs[2].1.start, 8);
}

#[test]
fn from_hints_leaves_hints_over() {
    let hints = vec!["a".to_string(), "b".to_string(), "c".to_string()];
    let map = HintHitMap::from_hints(vec![hit(3, 2, "xy"), hit(7, 2, "xy")], &hints);
    assert_eq!(map.pairs.len(), 2);
    assert_eq!(map.pairs[0].0, "a");
    assert_eq!(map.pairs[1].0, "a");
    assert_eq!(map.pairs[1].1.start, 7);
}

#[test]
fn no_hints_give_no_pairs() {
    let map = HintHitMap::from_hints(vec![hit(3, 2, "xy")], &Vec::new());
    assert!(map.pairs.is_empty());
}
