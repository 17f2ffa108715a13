//! Different selection modes.
use crate::input_handler::KeyPress;
use crate::rendering::api_types::Draw;
use vstd::prelude::*;

pub mod mode_selector;
pub mod regex;

pub use self::mode_selector::ModeSelectorMode;
pub use self::regex::RegexMode;

verus! {

/// The trait that defines all selection modes.
pub trait Mode {
    /// Handle the key press from the user.
    ///
    /// This can result in a [ModeEvent] and modifies the internal
    /// state of the mode.
    fn handle_key_press(&mut self, key: KeyPress) -> Option<ModeEvent>;

    /// Specify the draw instructions for the renderer.
    ///
    /// Note that the renderer does not display anything if the returned
    /// vector is empty.
    fn get_draw_instructions(&self) -> Vec<Draw>;
}

/// Enum that specifies the events happening inside the mode.
#[derive(Debug, PartialEq, Eq)]
pub enum ModeEvent {
    /// The text selection has finished and resulted in the given string.
    TextSelected(String),
    /// The mode at the given place in the list of modes was asked for.
    ModeSwitchRequested(usize),
}

} // verus!
