//! Handling of input events before they are delivered to the current mode.
use crate::configuration::Config;
use vstd::prelude::*;

verus! {

/// The modifier bits of a key event that says that only the control key
/// was held.
pub const CONTROL: u8 = 0b0000_0010;

/// The key of a key event.
#[derive(Debug, Clone, Copy)]
pub enum KeyCode {
    /// A key that stands for a character.
    Char(char),
    /// Any other key.
    Other,
}

/// A key event of the terminal.
#[derive(Debug, Clone, Copy)]
pub struct KeyEvent {
    /// The key that was pressed.
    pub code: KeyCode,
    /// The modifier keys that were held, one bit for each.
    pub modifiers: u8,
}

/// An event of the terminal.
#[derive(Debug, Clone, Copy)]
pub enum InputEvent {
    /// The terminal changed its size to the given columns and rows.
    Resize(u16, u16),
    /// A key was pressed.
    Key(KeyEvent),
    /// Anything else.
    Other,
}

/// Handle the input from the user.
///
/// The two main reasons for the existence of this struct are:
/// 1. To provide a layer of input handling that does not depend on the current mode.
/// 2. To turn terminal events into the actions that the modes know.
pub struct InputHandler {}

/// Representation of a key press that is delivered to the rest of the application.
#[derive(Debug, PartialEq, Eq)]
pub struct KeyPress {
    /// The key that was pressed.
    ///
    /// Note that this is currently only convenient for representing keys
    /// associated with a specific character (e.g. `'a'`, `'A'`). It will need
    /// to be modified if keys with modifiers (`Ctrl`, `Alt`) or keys that don't have
    /// a good one-character representation (`F1`, `Backspace`) need to be supported.
    pub key: char,
}

/// The action that resulted from the input.
#[derive(Debug, PartialEq, Eq)]
pub enum Action {
    /// Exit the application without providing any selected text.
    Exit,
    /// Forward the given [KeyPress] to the active mode.
    ForwardKeyPress(KeyPress),
    /// Terminal changed size.
    Resize,
    /// Go to a state where the user can choose to switch the mode.
    GoToModeSelection,
}

/// The action of pressing the key that stands for `key`.
pub open spec fn forward(key: char) -> Action {
    Action::ForwardKeyPress(KeyPress { key })
}

/// The action that a key event results in: `c` with only the control key
/// held exits, the space key goes to the mode selection, any other
/// character is forwarded, and no other key does anything.
pub open spec fn key_action(key: KeyEvent) -> Option<Action> {
    match key.code {
        KeyCode::Char(pressed) => if pressed == 'c' && key.modifiers == CONTROL {
            Some(Action::Exit)
        } else if pressed == ' ' {
            Some(Action::GoToModeSelection)
        } else {
            Some(forward(pressed))
        },
        KeyCode::Other => None,
    }
}

/// The action that an event results in.
pub open spec fn event_action(event: InputEvent) -> Option<Action> {
    match event {
        InputEvent::Resize(_, _) => Some(Action::Resize),
        InputEvent::Key(key) => key_action(key),
        InputEvent::Other => None,
    }
}

/// The action of pressing the key that stands for `key`.
fn forward_key(key: char) -> (action: Action)
    ensures
        action == forward(key),
{
    Action::ForwardKeyPress(KeyPress { key })
}

impl InputHandler {
    /// Create an [InputHandler] by using the relevant parts of the given config.
    pub fn from_config(_config: &Config) -> InputHandler {
        InputHandler {  }
    }

    /// Get the [Action] (if any) resulting from the given input event.
    pub fn get_action(&self, event: InputEvent) -> (action: Option<Action>)
        ensures
            action == event_action(event),
    {
        match event {
            InputEvent::Resize(_, _) => Some(Action::Resize),
            InputEvent::Key(key) => self.get_key_action(key),
            InputEvent::Other => None,
        }
    }

    /// Get the [Action] (if any) resulting from the given key press.
    ///
    /// This handles specifically key actions and not mouse actions, window
    /// resize or similar.
    fn get_key_action(&self, key: KeyEvent) -> (action: Option<Action>)
        ensures
            action == key_action(key),
    {
        match key.code {
            KeyCode::Char(pressed) => {
                if pressed == 'c' && key.modifiers == CONTROL {
                    Some(Action::Exit)
                } else if pressed == ' ' {
                    Some(Action::GoToModeSelection)
                } else {
                    Some(forward_key(pressed))
                }
            },
            KeyCode::Other => None,
        }
    }
}

} // verus!
