use mless::configuration::{Mode, ModeArgs, RegexArgs};
use mless::hints::HintPoolGenerator;
use mless::input_handler::{Action, KeyPress};
use mless::modes::{ModeSelectorMode, RegexMode};
use mless::run::{create_mode, first_mode, next_step, next_step_in_selection, Step};

fn modes() -> Vec<Mode> {
    ['r', 's', 'r']
        .into_iter()
        .map(|hotkey| Mode {
            args: ModeArgs::RegexMode(RegexArgs { regexes: vec!["[a-z]+".to_string()] }),
            hotkey,
            name: "mode".to_string(),
        })
        .collect()
}

fn regex_mode(text: &str) -> RegexMode {
    let args = ModeArgs::RegexMode(RegexArgs { regexes: vec!["[a-z]+".to_string()] });
    create_mode(text, &HintPoolGenerator::new("ab"), &args).unwrap()
}

#[test]
fn exit_ends_the_loop_without_a_text() {
    let mut mode = regex_mode("one two three");
    assert_eq!(next_step(&mut mode, Some(Action::Exit)), Step::Finish(String::new()));
}

#[test]
fn a_selection_ends_the_loop_with_the_text() {
    let mut mode = regex_mode("one two three");
    let press = |key| Some(Action::ForwardKeyPress(KeyPress { key }));
    assert_eq!(next_step(&mut mode, press('b')), Step::Continue);
    assert_eq!(next_step(&mut mode, press('b')), Step::Finish("three".to_string()));
    assert_eq!(next_step(&mut mode, press('x')), Step::Continue);
    assert_eq!(next_step(&mut mode, press('a')), Step::Finish("one".to_string()));
}

#[test]
fn other_actions_keep_what_was_typed() {
    let mut mode = regex_mode("one two three");
    let press = |key| Some(Action::ForwardKeyPress(KeyPress { key }));
    assert_eq!(next_step(&mut mode, press('b')), Step::Continue);
    assert_eq!(next_step(&mut mode, None), Step::Continue);
    assert_eq!(next_step(&mut mode, Some(Action::Resize)), Step::Rebuild);
    assert_eq!(next_step(&mut mode, Some(Action::GoToModeSelection)), Step::SelectMode);
    assert_eq!(next_step(&mut mode, press('a')), Step::Finish("two".to_string()));
}

#[test]
fn a_hotkey_switches_to_its_mode() {
    let modes = modes();
    let mut selector = ModeSelectorMode::new(&modes);
    let press = |key| Some(Action::ForwardKeyPress(KeyPress { key }));
    assert_eq!(next_step_in_selection(&mut selector, press('s')), Step::SwitchMode(1));
    assert_eq!(next_step_in_selection(&mut selector, press('r')), Step::SwitchMode(0));
    assert_eq!(next_step_in_selection(&mut selector, press('x')), Step::Continue);
}

#[test]
fn other_actions_work_while_a_mode_is_chosen() {
    let modes = modes();
    let mut selector = ModeSelectorMode::new(&modes);
    assert_eq!(
        next_step_in_selection(&mut selector, Some(Action::Exit)),
        Step::Finish(String::new())
    );
    assert_eq!(next_step_in_selection(&mut selector, Some(Action::Resize)), Step::Rebuild);
    assert_eq!(
        next_step_in_selection(&mut selector, Some(Action::GoToModeSelection)),
        Step::ResumeMode
    );
    assert_eq!(next_step_in_selection(&mut selector, None), Step::Continue);
}

#[test]
fn the_first_mode_is_the_one_asked_for() {
    let modes = modes();
    assert_eq!(first_mode(&modes, None), 0);
    assert_eq!(first_mode(&modes, Some('s')), 1);
    assert_eq!(first_mode(&modes, Some('r')), 0);
    assert_eq!(first_mode(&modes, Some('x')), 0);
    assert_eq!(first_mode(&[], Some('x')), 0);
}
