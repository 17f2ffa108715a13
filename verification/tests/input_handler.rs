use crossterm::style::Color;
use mless::configuration::{Config, Mode, ModeArgs, RegexArgs};
use mless::input_handler::{
    Action, InputEvent, InputHandler, KeyCode, KeyEvent, KeyPress, CONTROL,
};

fn handler() -> InputHandler {
    InputHandler::from_config(&Config {
        hint_characters: "asd".to_string(),
        hint_fg: Color::AnsiValue(232),
        hint_bg: Color::AnsiValue(208),
        highlight_fg: Color::AnsiValue(232),
        highlight_bg: Color::AnsiValue(252),
        mode_switch_divider_fg: Color::AnsiValue(208),
        mode_switch_hotkey_fg: Color::AnsiValue(208),
        mode_switch_mode_name_fg: Color::AnsiValue(252),
        mode_switch_width: 25,
        modes: vec![Mode {
            args: ModeArgs::RegexMode(RegexArgs { regexes: vec!["[a-z]+".to_string()] }),
            hotkey: 'r',
            name: "default".to_string(),
        }],
    })
}

fn key(code: KeyCode, modifiers: u8) -> InputEvent {
    InputEvent::Key(KeyEvent { code, modifiers })
}

#[test]
fn control_c_exits() {
    assert_eq!(handler().get_action(key(KeyCode::Char('c'), CONTROL)), Some(Action::Exit));
}

#[test]
fn c_with_other_modifiers_is_forwarded() {
    let forwarded = Some(Action::ForwardKeyPress(KeyPress { key: 'c' }));
    assert_eq!(handler().get_action(key(KeyCode::Char('c'), 0)), forwarded);
    assert_eq!(handler().get_action(key(KeyCode::Char('c'), CONTROL | 1)), forwarded);
    assert_eq!(handler().get_action(key(KeyCode::Char('c'), 4)), forwarded);
}

#[test]
fn space_goes_to_mode_selection() {
    assert_eq!(handler().get_action(key(KeyCode::Char(' '), 0)), Some(Action::GoToModeSelection));
    assert_eq!(
        handler().get_action(key(KeyCode::Char(' '), CONTROL)),
        Some(Action::GoToModeSelection)
    );
}

#[test]
fn characters_are_forwarded() {
    assert_eq!(
        handler().get_action(key(KeyCode::Char('a'), 0)),
        Some(Action::ForwardKeyPress(KeyPress { key: 'a' }))
    );
    assert_eq!(
        handler().get_action(key(KeyCode::Char('Q'), 1)),
        Some(Action::ForwardKeyPress(KeyPress { key: 'Q' }))
    );
}

#[test]
fn resize_is_passed_on() {
    assert_eq!(handler().get_action(InputEvent::Resize(80, 24)), Some(Action::Resize));
}

#[test]
fn other_events_do_nothing() {
    assert_eq!(handler().get_action(key(KeyCode::Other, 0)), None);
    assert_eq!(handler().get_action(key(KeyCode::Other, CONTROL)), None);
    assert_eq!(handler().get_action(InputEvent::Other), None);
}

