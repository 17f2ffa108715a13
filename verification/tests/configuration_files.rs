use crossterm::style::Color;
use mless::configuration::{
    config_file_candidates, string_to_color, ConfigError, ModeArgs, RegexArgs,
};
use mless::modes::regex::matcher::is_accepted;

fn regexes(patterns: &[&str]) -> RegexArgs {
    RegexArgs { regexes: patterns.iter().map(|pattern| pattern.to_string()).collect() }
}

#[test]
fn string_to_color_returns_none_for_empty_string() {
    assert_eq!(string_to_color(""), None);
}

#[test]
fn string_to_color_returns_the_color_of_a_name() {
    assert_eq!(string_to_color("black"), Some(Color::Black));
    assert_eq!(string_to_color("dark_grey"), Some(Color::DarkGrey));
    assert_eq!(string_to_color("red"), Some(Color::Red));
    assert_eq!(string_to_color("dark_red"), Some(Color::DarkRed));
    assert_eq!(string_to_color("green"), Some(Color::Green));
    assert_eq!(string_to_color("dark_green"), Some(Color::DarkGreen));
    assert_eq!(string_to_color("yellow"), Some(Color::Yellow));
    assert_eq!(string_to_color("dark_yellow"), Some(Color::DarkYellow));
    assert_eq!(string_to_color("blue"), Some(Color::Blue));
    assert_eq!(string_to_color("dark_blue"), Some(Color::DarkBlue));
    assert_eq!(string_to_color("magenta"), Some(Color::Magenta));
    assert_eq!(string_to_color("dark_magenta"), Some(Color::DarkMagenta));
    assert_eq!(string_to_color("cyan"), Some(Color::Cyan));
    assert_eq!(string_to_color("dark_cyan"), Some(Color::DarkCyan));
    assert_eq!(string_to_color("white"), Some(Color::White));
    assert_eq!(string_to_color("grey"), Some(Color::Grey));
}

#[test]
fn string_to_color_returns_the_color_of_an_ansi_code() {
    assert_eq!(string_to_color("5;232"), Some(Color::AnsiValue(232)));
}

#[test]
fn string_to_color_returns_the_color_of_an_rgb_code() {
    assert_eq!(string_to_color("2;50;60;70"), Some(Color::Rgb { r: 50, g: 60, b: 70 }));
}

#[test]
fn string_to_color_returns_none_for_anything_else() {
    assert_eq!(string_to_color("no color"), None);
    assert_eq!(string_to_color("5;"), None);
}

#[test]
fn regexes_are_checked() {
    assert_eq!(regexes(&["regex1", "regex2"]).validate(), Ok(()));
    assert_eq!(regexes(&[]).validate(), Err(ConfigError::NoRegexes));
    assert_eq!(regexes(&["regex1", "x["]).validate(), Err(ConfigError::InvalidRegex));
    assert_eq!(
        ModeArgs::RegexMode(regexes(&["x["])).validate(),
        Err(ConfigError::InvalidRegex)
    );
}

#[test]
fn patterns_are_accepted_or_not() {
    assert!(is_accepted(r"[\w._\-~/]{4,}"));
    assert!(is_accepted(""));
    assert!(!is_accepted("x["));
    assert!(!is_accepted("foo(bar"));
}

#[test]
fn equals_returns_expected_value() {
    assert!(regexes(&[]).same_as(&regexes(&[])));
    assert!(regexes(&[".+"]).same_as(&regexes(&[".+"])));
    assert!(!regexes(&[".+"]).same_as(&regexes(&[])));
    assert!(!regexes(&[".+", "a"]).same_as(&regexes(&[".+", "b"])));
    assert!(!regexes(&["a", ".+"]).same_as(&regexes(&[".+", "a"])));
}

#[test]
fn candidates_come_in_the_order_of_preference() {
    assert_eq!(
        config_file_candidates(Some("/home/user/.xdg_config"), Some("/home/user")),
        vec![
            "/home/user/.xdg_config/mless/mless.yaml",
            "/home/user/.config/mless/mless.yaml",
            "/home/user/.mless.yaml",
        ]
    );
}

#[test]
fn candidates_leave_out_what_is_not_known() {
    assert_eq!(
        config_file_candidates(None, Some("/home/user")),
        vec!["/home/user/.config/mless/mless.yaml", "/home/user/.mless.yaml"]
    );
    assert_eq!(
        config_file_candidates(Some("/path/not/important"), None),
        vec!["/path/not/important/mless/mless.yaml"]
    );
    assert!(config_file_candidates(None, None).is_empty());
}

fn location(
    config_directory: Option<&str>,
    home_directory: Option<&str>,
    existing_files: &[&str],
) -> Option<String> {
    config_file_candidates(config_directory, home_directory)
        .into_iter()
        .find(|place| existing_files.contains(&place.as_str()))
}

#[test]
fn get_config_file_location_returns_none_if_no_files_exist() {
    let fake_file_exists = |_path: &str| false;
    let config_path = config_file_candidates(
        Some("/path/not/important"),
        Some("/path/not/important"),
    )
    .into_iter()
    .find(|place| fake_file_exists(place));

    assert!(config_path.is_none());
}

#[test]
fn get_config_file_location_returns_expected_value_when_only_xdg_config_file_exists() {
    assert_eq!(
        location(
            Some("/home/user/.xdg_config"),
            Some("/home/user"),
            &["/home/user/.xdg_config/mless/mless.yaml"],
        ),
        Some("/home/user/.xdg_config/mless/mless.yaml".to_string())
    );
}

#[test]
fn get_config_file_location_returns_expected_value_when_only_home_config_file_exists() {
    assert_eq!(
        location(
            Some("/home/user/.xdg_config"),
            Some("/home/user"),
            &["/home/user/.config/mless/mless.yaml"],
        ),
        Some("/home/user/.config/mless/mless.yaml".to_string())
    );
}

#[test]
fn get_config_file_location_returns_expected_value_when_only_home_file_exists() {
    assert_eq!(
        location(
            Some("/home/user/.xdg_config"),
            Some("/home/user"),
            &["/home/user/.mless.yaml"],
        ),
        Some("/home/user/.mless.yaml".to_string())
    );
}

#[test]
fn get_config_file_location_returns_expected_value_when_xdg_config_is_not_defined_and_home_config_exists(
) {
    assert_eq!(
        location(None, Some("/home/user"), &["/home/user/.config/mless/mless.yaml"]),
        Some("/home/user/.config/mless/mless.yaml".to_string())
    );
}

#[test]
fn get_config_file_location_returns_expected_value_when_xdg_config_is_not_defined_and_home_does_not_exist(
) {
    assert_eq!(
        location(None, Some("/home/user"), &["/home/user/.mless.yaml"]),
        Some("/home/user/.mless.yaml".to_string())
    );
}

#[test]
fn get_config_file_location_returns_expected_value_when_xdg_config_and_home_config_exist() {
    assert_eq!(
        location(
            Some("/home/user/.xdg_config"),
            Some("/home/user"),
            &[
                "/home/user/.xdg_config/mless/mless.yaml",
                "/home/user/.config/mless/mless.yaml",
            ],
        ),
        Some("/home/user/.xdg_config/mless/mless.yaml".to_string())
    );
}

#[test]
fn get_config_file_location_returns_expected_value_when_xdg_config_and_home_file_exist() {
    assert_eq!(
        location(
            Some("/home/user/.xdg_config"),
            Some("/home/user"),
            &["/home/user/.xdg_config/mless/mless.yaml", "/home/user/.mless.yaml"],
        ),
        Some("/home/user/.xdg_config/mless/mless.yaml".to_string())
    );
}

#[test]
fn get_config_file_location_returns_expected_value_when_home_config_and_home_file_exist() {
    assert_eq!(
        location(
            Some("/home/user/.xdg_config"),
            Some("/home/user"),
            &["/home/user/.config/mless/mless.yaml", "/home/user/.mless.yaml"],
        ),
        Some("/home/user/.config/mless/mless.yaml".to_string())
    );
}

#[test]
fn get_config_file_location_returns_expected_value_when_all_three_files_exist() {
    assert_eq!(
        location(
            Some("/home/user/.xdg_config"),
            Some("/home/user"),
            &[
                "/home/user/.config/mless/mless.yaml",
                "/home/user/.xdg_config/mless/mless.yaml",
                "/home/user/.mless.yaml",
            ],
        ),
        Some("/home/user/.xdg_config/mless/mless.yaml".to_string())
    );
}

#[test]
fn deserialization_fails_if_no_regexes_are_provided() {
    let result = regexes(&[]).validate();
    result.unwrap_err();
}

#[test]
fn deserialization_fails_if_invalid_regex_is_provided() {
    let result = regexes(&["x["]).validate();
    result.unwrap_err();
}
