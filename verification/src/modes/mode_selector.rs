//! Choosing another mode.
use crate::configuration;
use crate::input_handler::KeyPress;
use crate::modes::{Mode, ModeEvent};
use crate::rendering::api_types::Draw;
use vstd::prelude::*;

verus! {

/// A mode that allows the user to change to a different selection mode.
pub struct ModeSelectorMode<'a> {
    modes: &'a [configuration::Mode],
}

/// Index of the first mode with the given hotkey, or the number of modes
/// where there is none.
pub open spec fn position_of_hotkey(modes: Seq<configuration::Mode>, hotkey: char) -> int
    decreases modes.len(),
{
    if modes.len() == 0 || modes[0].hotkey == hotkey {
        0
    } else {
        1 + position_of_hotkey(modes.drop_first(), hotkey)
    }
}

/// `position_of_hotkey` finds the first mode with the hotkey.
pub proof fn lemma_position_of_hotkey(modes: Seq<configuration::Mode>, hotkey: char)
    ensures
        0 <= position_of_hotkey(modes, hotkey) <= modes.len(),
        position_of_hotkey(modes, hotkey) < modes.len() ==> modes[position_of_hotkey(
            modes,
            hotkey,
        )].hotkey == hotkey,
        forall|k: int|
            0 <= k < position_of_hotkey(modes, hotkey) ==> (#[trigger] modes[k]).hotkey != hotkey,
    decreases modes.len(),
{
    if modes.len() > 0 && modes[0].hotkey != hotkey {
        let rest = modes.drop_first();
        lemma_position_of_hotkey(rest, hotkey);
        assert forall|k: int| 0 <= k < position_of_hotkey(modes, hotkey) implies (
        #[trigger] modes[k]).hotkey != hotkey by {
            if k > 0 {
                assert(modes[k] == rest[k - 1]);
            }
        }
    }
}

impl<'a> ModeSelectorMode<'a> {
    /// The modes that can be chosen.
    pub closed spec fn modes(&self) -> Seq<configuration::Mode> {
        self.modes@
    }

    pub fn new(modes: &'a [configuration::Mode]) -> (selector: Self)
        ensures
            selector.modes() == modes@,
    {
        Self { modes }
    }
}

impl<'a> Mode for ModeSelectorMode<'a> {
    /// Asks for the first mode whose hotkey is the key; does nothing for a
    /// key that is no hotkey.
    fn handle_key_press(&mut self, key: KeyPress) -> (event: Option<ModeEvent>)
        ensures
            final(self).modes() == old(self).modes(),
            event matches Some(event) ==> event matches ModeEvent::ModeSwitchRequested(index)
                && index == position_of_hotkey(old(self).modes(), key.key) < old(
                self,
            ).modes().len(),
            event is None ==> position_of_hotkey(old(self).modes(), key.key) == old(
                self,
            ).modes().len(),
    {
        let mut i: usize = 0;
        proof {
            lemma_position_of_hotkey(self.modes@, key.key);
        }
        while i < self.modes.len()
            invariant
                0 <= i <= self.modes@.len(),
                forall|k: int| 0 <= k < i ==> (#[trigger] self.modes@[k]).hotkey != key.key,
                0 <= position_of_hotkey(self.modes@, key.key) <= self.modes@.len(),
                position_of_hotkey(self.modes@, key.key) < self.modes@.len()
                    ==> self.modes@[position_of_hotkey(self.modes@, key.key)].hotkey == key.key,
                forall|k: int|
                    0 <= k < position_of_hotkey(self.modes@, key.key) ==> (
                    #[trigger] self.modes@[k]).hotkey != key.key,
            decreases self.modes.len() - i,
        {
            if self.modes[i].hotkey == key.key {
                return Some(ModeEvent::ModeSwitchRequested(i));
            }
            i += 1;
        }
        None
    }

    /// Two instructions: to draw the data as it is, and over it the dialog
    /// with the hotkey and the name of every mode.
    fn get_draw_instructions(&self) -> (instructions: Vec<Draw>)
        ensures
            instructions@.len() == 2,
            instructions@[0] is Data,
            instructions@[1] matches Draw::ModeSelectionDialog(entries) && {
                &&& entries@.len() == self.modes().len()
                &&& forall|i: int|
                    0 <= i < entries@.len() ==> {
                        &&& (#[trigger] entries@[i]).0 == self.modes()[i].hotkey
                        &&& entries@[i].1@ == self.modes()[i].name@
                    }
            },
    {
        let mut entries: Vec<(char, String)> = Vec::new();
        let mut i: usize = 0;
        while i < self.modes.len()
            invariant
                0 <= i <= self.modes@.len(),
                entries@.len() == i,
                forall|k: int|
                    0 <= k < i ==> {
                        &&& (#[trigger] entries@[k]).0 == self.modes@[k].hotkey
                        &&& entries@[k].1@ == self.modes@[k].name@
                    },
            decreases self.modes.len() - i,
        {
            entries.push((self.modes[i].hotkey, self.modes[i].name.clone()));
            i += 1;
        }
        let mut instructions: Vec<Draw> = Vec::new();
        instructions.push(Draw::Data);
        instructions.push(Draw::ModeSelectionDialog(entries));
        instructions
    }
}

} // verus!
