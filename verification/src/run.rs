//! What the main loop decides.
//!
//! The loop itself waits for an event of the terminal, has the input
//! handler turn it into an action, asks here what to do about it, and does
//! it: it draws, reads and exits, none of which is decided here.
use crate::configuration;
use crate::configuration::ModeArgs;
use crate::error::RunError;
use crate::hints::HintGenerator;
use crate::input_handler::Action;
use crate::modes::mode_selector::{lemma_position_of_hotkey, position_of_hotkey};
use crate::modes::regex::selection::key_step;
use crate::modes::{Mode, ModeEvent, ModeSelectorMode, RegexMode};
use vstd::prelude::*;

verus! {

/// What the main loop does after an action.
#[derive(Debug, PartialEq, Eq)]
pub enum Step {
    /// Draw again and wait for the next event.
    Continue,
    /// Page the input again for the new size of the screen and make the
    /// mode anew from it.
    Rebuild,
    /// Let the user choose another mode.
    SelectMode,
    /// Go back to the mode that was left for choosing another one.
    ResumeMode,
    /// Make the mode with the given place in the list of modes and go on
    /// with it.
    SwitchMode(usize),
    /// Leave the loop and hand out the text: the selected one, or none at
    /// all where the user asked to exit.
    Finish(String),
}

/// Makes the mode that the arguments describe.
///
/// See [`RegexMode::new`] for what the mode holds and when it is refused.
pub fn create_mode<G: HintGenerator + ?Sized>(
    input_text: &str,
    hint_generator: &G,
    args: &ModeArgs,
) -> (mode: Result<RegexMode, RunError>)
    ensures
        match args {
            ModeArgs::RegexMode(regex_args) => RegexMode::made(
                mode,
                input_text,
                regex_args,
                hint_generator,
            ),
        },
{
    match args {
        ModeArgs::RegexMode(args) => RegexMode::new(input_text, args, hint_generator),
    }
}

/// Decides what the main loop does about an action.
///
/// A key press goes to the mode and ends the loop when it selects a text.
/// An exit ends the loop with no text. A resize makes the loop build page
/// and mode anew. Without an action the loop goes on.
pub fn next_step(current_mode: &mut RegexMode, action: Option<Action>) -> (step: Step)
    ensures
        final(current_mode).hints() == old(current_mode).hints(),
        final(current_mode).hits() == old(current_mode).hits(),
        final(current_mode).highlight() == old(current_mode).highlight(),
        final(current_mode).hint() == old(current_mode).hint(),
        match action {
            Some(Action::Exit) => {
                &&& step matches Step::Finish(text)
                &&& text@ == Seq::<char>::empty()
                &&& final(current_mode).typed() == old(current_mode).typed()
            },
            Some(Action::ForwardKeyPress(keypress)) => {
                let pressed = key_step(
                    old(current_mode).hints(),
                    old(current_mode).texts(),
                    old(current_mode).typed(),
                    keypress.key,
                );
                &&& final(current_mode).typed() == pressed.0
                &&& match pressed.1 {
                    Some(selected) => step matches Step::Finish(text) && text@ == selected,
                    None => step is Continue,
                }
            },
            Some(Action::Resize) => {
                &&& step is Rebuild
                &&& final(current_mode).typed() == old(current_mode).typed()
            },
            Some(Action::GoToModeSelection) => {
                &&& step is SelectMode
                &&& final(current_mode).typed() == old(current_mode).typed()
            },
            None => {
                &&& step is Continue
                &&& final(current_mode).typed() == old(current_mode).typed()
            },
        },
{
    match action {
        Some(Action::Exit) => Step::Finish(String::new()),
        Some(Action::ForwardKeyPress(keypress)) => {
            match current_mode.handle_key_press(keypress) {
                Some(ModeEvent::TextSelected(text)) => Step::Finish(text),
                _ => Step::Continue,
            }
        },
        Some(Action::Resize) => Step::Rebuild,
        Some(Action::GoToModeSelection) => Step::SelectMode,
        None => Step::Continue,
    }
}

/// Decides what the main loop does about an action while the user chooses
/// another mode.
///
/// The hotkey of a mode switches to the first mode that has it; any other
/// key does nothing. Asking for the mode selection once more goes back to
/// the mode that was left. Exit and resize do what they always do.
pub fn next_step_in_selection(selector: &mut ModeSelectorMode, action: Option<Action>) -> (step:
    Step)
    ensures
        final(selector).modes() == old(selector).modes(),
        match action {
            Some(Action::Exit) => step matches Step::Finish(text) && text@ == Seq::<char>::empty(),
            Some(Action::ForwardKeyPress(keypress)) => {
                let place = position_of_hotkey(old(selector).modes(), keypress.key);
                if place < old(selector).modes().len() {
                    step matches Step::SwitchMode(index) && index == place
                } else {
                    step is Continue
                }
            },
            Some(Action::Resize) => step is Rebuild,
            Some(Action::GoToModeSelection) => step is ResumeMode,
            None => step is Continue,
        },
{
    match action {
        Some(Action::Exit) => Step::Finish(String::new()),
        Some(Action::ForwardKeyPress(keypress)) => {
            proof {
                lemma_position_of_hotkey(selector.modes(), keypress.key);
            }
            match selector.handle_key_press(keypress) {
                Some(ModeEvent::ModeSwitchRequested(index)) => Step::SwitchMode(index),
                _ => Step::Continue,
            }
        },
        Some(Action::Resize) => Step::Rebuild,
        Some(Action::GoToModeSelection) => Step::ResumeMode,
        None => Step::Continue,
    }
}

/// Place of the mode to begin with: the first mode with the hotkey that was
/// asked for, or the first mode of all where none was asked for or none has
/// it.
pub fn first_mode(modes: &[configuration::Mode], start_in_mode: Option<char>) -> (place: usize)
    ensures
        place == match start_in_mode {
            Some(hotkey) => if position_of_hotkey(modes@, hotkey) < modes@.len() {
                position_of_hotkey(modes@, hotkey)
            } else {
                0
            },
            None => 0,
        },
{
    match start_in_mode {
        Some(hotkey) => {
            let mut selector = ModeSelectorMode::new(modes);
            proof {
                lemma_position_of_hotkey(modes@, hotkey);
            }
            match selector.handle_key_press(crate::input_handler::KeyPress { key: hotkey }) {
                Some(ModeEvent::ModeSwitchRequested(index)) => index,
                _ => 0,
            }
        },
        None => 0,
    }
}

} // verus!
