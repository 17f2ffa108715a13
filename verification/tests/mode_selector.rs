use mless::configuration::{Mode as ModeEntry, ModeArgs, RegexArgs};
use mless::input_handler::KeyPress;
use mless::modes::{Mode, ModeEvent, ModeSelectorMode};
use mless::rendering::api_types::Draw;

fn entry(hotkey: char, name: &str) -> ModeEntry {
    ModeEntry {
        args: ModeArgs::RegexMode(RegexArgs { regexes: vec!["[a-z]+".to_string()] }),
        hotkey,
        name: name.to_string(),
    }
}

#[test]
fn the_selector_asks_for_the_mode_of_the_hotkey() {
    let modes = vec![entry('r', "first"), entry('s', "second"), entry('r', "third")];
    let mut selector = ModeSelectorMode::new(&modes);
    assert_eq!(
        selector.handle_key_press(KeyPress { key: 's' }),
        Some(ModeEvent::ModeSwitchRequested(1))
    );
    assert_eq!(
        selector.handle_key_press(KeyPress { key: 'r' }),
        Some(ModeEvent::ModeSwitchRequested(0))
    );
    assert_eq!(selector.handle_key_press(KeyPress { key: 'x' }), None);
}

#[test]
fn the_selector_draws_the_data_and_the_dialog() {
    let modes = vec![entry('r', "first"), entry('s', "second")];
    let selector = ModeSelectorMode::new(&modes);
    assert_eq!(
        selector.get_draw_instructions(),
        vec![
            Draw::Data,
            Draw::ModeSelectionDialog(vec![('r', "first".to_string()), ('s', "second".to_string())]),
        ]
    );
}

