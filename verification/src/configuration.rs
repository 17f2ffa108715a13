//! Structs for the settings that the library works with.
use crate::modes::regex::matcher::{is_accepted, pattern_accepted};
use crate::modes::regex::patterns_accepted;
use crate::rendering::api_types::{ansi_value, palette_color, TextStyle};
use crossterm::style::Color;
use vstd::prelude::*;
use vstd::string::*;

pub mod color;

pub use color::string_to_color;

verus! {

/// Why settings are refused.
#[derive(Debug, PartialEq, Eq, Clone, Copy, Structural)]
pub enum ConfigError {
    /// There is no character to make hints of.
    NoHintCharacters,
    /// There is no mode.
    NoModes,
    /// Two modes have the same hotkey.
    RepeatedHotkey,
    /// A regex mode has no regex.
    NoRegexes,
    /// A regex of a regex mode is refused by the regex crate.
    InvalidRegex,
}

/// The main configuration struct representing the whole configuration.
#[derive(Debug)]
pub struct Config {
    /// Characters that can be used by the modes to make hints.
    pub hint_characters: String,
    /// Foreground color for hints during selection.
    pub hint_fg: Color,
    /// Background color for hints during selection.
    pub hint_bg: Color,
    /// Foreground color for highlights during selection.
    pub highlight_fg: Color,
    /// Background color for highlights during selection.
    pub highlight_bg: Color,
    /// Foreground color of the mode switching divider character.
    pub mode_switch_divider_fg: Color,
    /// Foreground color of mode hotkeys displayed during mode switching.
    pub mode_switch_hotkey_fg: Color,
    /// Foreground color of mode names displayed during mode switching.
    pub mode_switch_mode_name_fg: Color,
    /// Mode switching dialog width including the divider.
    pub mode_switch_width: usize,
    /// List of modes that the user can use.
    ///
    /// Note that it is possible to have multiple instances of the same
    /// mode with different arguments.
    pub modes: Vec<Mode>,
}

/// The characters that hints are made of unless the settings say
/// otherwise.
pub open spec fn default_hint_characters() -> Seq<char> {
    "fdsajkl;weiocmruvnghqpxztyb"@
}

/// The regex of the mode that is there unless the settings say otherwise:
/// words, paths and the like of four characters or more.
pub open spec fn default_regex() -> Seq<char> {
    r"[\w._\-~/]{4,}"@
}

impl Default for Config {
    /// The settings that are used where nothing else is asked for.
    fn default() -> (config: Self)
        ensures
            config.hint_characters@ == default_hint_characters(),
            config.hint_fg == palette_color(232),
            config.hint_bg == palette_color(208),
            config.highlight_fg == palette_color(232),
            config.highlight_bg == palette_color(252),
            config.mode_switch_divider_fg == palette_color(208),
            config.mode_switch_hotkey_fg == palette_color(208),
            config.mode_switch_mode_name_fg == palette_color(252),
            config.mode_switch_width == 25,
            config.modes@.len() == 1,
            config.modes@[0].hotkey == 'r',
            config.modes@[0].name@ == "default"@,
            config.modes@[0].args matches ModeArgs::RegexMode(args) && args.patterns()
                == seq![default_regex()],
    {
        let mut regexes: Vec<String> = Vec::new();
        regexes.push(r"[\w._\-~/]{4,}".to_owned());
        let ghost patterns = regexes.deep_view();
        assert(patterns =~= seq![default_regex()]);
        let mut modes: Vec<Mode> = Vec::new();
        modes.push(
            Mode {
                args: ModeArgs::RegexMode(RegexArgs { regexes }),
                hotkey: 'r',
                name: "default".to_owned(),
            },
        );
        Config {
            hint_characters: "fdsajkl;weiocmruvnghqpxztyb".to_owned(),
            hint_fg: ansi_value(232),
            hint_bg: ansi_value(208),
            highlight_fg: ansi_value(232),
            highlight_bg: ansi_value(252),
            mode_switch_divider_fg: ansi_value(208),
            mode_switch_hotkey_fg: ansi_value(208),
            mode_switch_mode_name_fg: ansi_value(252),
            mode_switch_width: 25,
            modes,
        }
    }
}

/// No two modes have the same hotkey.
pub open spec fn distinct_hotkeys(modes: Seq<Mode>) -> bool {
    forall|i: int, j: int|
        0 <= i < j < modes.len() ==> (#[trigger] modes[i]).hotkey != (#[trigger] modes[j]).hotkey
}

impl Config {
    /// The style in which the settings want the hits drawn.
    pub fn highlight_style(&self) -> (style: TextStyle)
        ensures
            style == (TextStyle { foreground: self.highlight_fg, background: self.highlight_bg }),
    {
        TextStyle { foreground: self.highlight_fg, background: self.highlight_bg }
    }

    /// The style in which the settings want the hints drawn.
    pub fn hint_style(&self) -> (style: TextStyle)
        ensures
            style == (TextStyle { foreground: self.hint_fg, background: self.hint_bg }),
    {
        TextStyle { foreground: self.hint_fg, background: self.hint_bg }
    }

    /// What the settings must hold to be used: a character for the hints,
    /// a mode, valid arguments and a different hotkey for every mode.
    pub open spec fn valid(&self) -> bool {
        &&& self.hint_characters@.len() > 0
        &&& self.modes@.len() > 0
        &&& forall|i: int| 0 <= i < self.modes@.len() ==> (#[trigger] self.modes@[i]).args.valid()
        &&& distinct_hotkeys(self.modes@)
    }

    /// Checks that there is a character to make hints of.
    pub fn validate_hint_characters(hint_characters: &str) -> (checked: Result<(), ConfigError>)
        ensures
            checked == if hint_characters@.len() > 0 {
                Ok::<(), ConfigError>(())
            } else {
                Err(ConfigError::NoHintCharacters)
            },
    {
        if !hint_characters.is_empty() {
            return Ok(());
        }
        Err(ConfigError::NoHintCharacters)
    }

    /// Checks that there is a mode and that all hotkeys are different.
    pub fn validate_modes(modes: &[Mode]) -> (checked: Result<(), ConfigError>)
        ensures
            checked == if modes@.len() == 0 {
                Err::<(), ConfigError>(ConfigError::NoModes)
            } else if !distinct_hotkeys(modes@) {
                Err(ConfigError::RepeatedHotkey)
            } else {
                Ok(())
            },
    {
        if modes.len() == 0 {
            return Err(ConfigError::NoModes);
        }
        let mut j: usize = 0;
        while j < modes.len()
            invariant
                0 <= j <= modes@.len(),
                distinct_hotkeys(modes@.take(j as int)),
            decreases modes.len() - j,
        {
            let mut i: usize = 0;
            while i < j
                invariant
                    0 <= i <= j < modes@.len(),
                    forall|k: int|
                        0 <= k < i ==> (#[trigger] modes@[k]).hotkey != modes@[j as int].hotkey,
                decreases j - i,
            {
                if modes[i].hotkey == modes[j].hotkey {
                    return Err(ConfigError::RepeatedHotkey);
                }
                i += 1;
            }
            proof {
                assert forall|a: int, b: int| 0 <= a < b < j + 1 implies (#[trigger] modes@.take(
                    j + 1,
                )[a]).hotkey != (#[trigger] modes@.take(j + 1)[b]).hotkey by {
                    if b < j {
                        assert(modes@.take(j as int)[a].hotkey != modes@.take(j as int)[b].hotkey);
                    }
                }
            }
            j += 1;
        }
        assert(modes@.take(modes@.len() as int) =~= modes@);
        Ok(())
    }

    /// Checks the settings: see [`Config::valid`].
    ///
    /// The first thing that is wrong is reported: no hint characters, no
    /// modes, the arguments of the first mode that has wrong ones, a
    /// repeated hotkey.
    pub fn validate(&self) -> (checked: Result<(), ConfigError>)
        ensures
            checked is Ok <==> self.valid(),
            checked == if self.hint_characters@.len() == 0 {
                Err::<(), ConfigError>(ConfigError::NoHintCharacters)
            } else if self.modes@.len() == 0 {
                Err(ConfigError::NoModes)
            } else if first_invalid_mode(self.modes@) < self.modes@.len() {
                self.modes@[first_invalid_mode(self.modes@)].args.checked()
            } else if !distinct_hotkeys(self.modes@) {
                Err(ConfigError::RepeatedHotkey)
            } else {
                Ok(())
            },
    {
        if let Err(error) = Config::validate_hint_characters(self.hint_characters.as_str()) {
            return Err(error);
        }
        if self.modes.len() == 0 {
            return Err(ConfigError::NoModes);
        }
        let mut i: usize = 0;
        proof {
            lemma_first_invalid_mode(self.modes@);
        }
        while i < self.modes.len()
            invariant
                0 <= i <= self.modes@.len(),
                self.hint_characters@.len() > 0,
                forall|k: int| 0 <= k < i ==> (#[trigger] self.modes@[k]).args.valid(),
                0 <= first_invalid_mode(self.modes@) <= self.modes@.len(),
                first_invalid_mode(self.modes@) < self.modes@.len()
                    ==> !self.modes@[first_invalid_mode(self.modes@)].args.valid(),
                forall|k: int|
                    0 <= k < first_invalid_mode(self.modes@) ==> (
                    #[trigger] self.modes@[k]).args.valid(),
            decreases self.modes.len() - i,
        {
            if let Err(error) = self.modes[i].args.validate() {
                proof {
                    let first = first_invalid_mode(self.modes@);
                    assert(!self.modes@[i as int].args.valid());
                    if first < i {
                        assert(self.modes@[first].args.valid());
                    }
                    assert(first == i);
                }
                return Err(error);
            }
            i += 1;
        }
        Config::validate_modes(self.modes.as_slice())
    }
}

/// Index of the first mode whose arguments are not valid, or the number of
/// modes where all are.
pub open spec fn first_invalid_mode(modes: Seq<Mode>) -> int
    decreases modes.len(),
{
    if modes.len() == 0 || !modes[0].args.valid() {
        0
    } else {
        1 + first_invalid_mode(modes.drop_first())
    }
}

/// `first_invalid_mode` finds the first mode with arguments that are not
/// valid.
pub proof fn lemma_first_invalid_mode(modes: Seq<Mode>)
    ensures
        0 <= first_invalid_mode(modes) <= modes.len(),
        first_invalid_mode(modes) < modes.len() ==> !modes[first_invalid_mode(modes)].args.valid(),
        forall|k: int| 0 <= k < first_invalid_mode(modes) ==> (#[trigger] modes[k]).args.valid(),
    decreases modes.len(),
{
    if modes.len() > 0 && modes[0].args.valid() {
        let rest = modes.drop_first();
        lemma_first_invalid_mode(rest);
        assert forall|k: int| 0 <= k < first_invalid_mode(modes) implies (
        #[trigger] modes[k]).args.valid() by {
            if k > 0 {
                assert(modes[k] == rest[k - 1]);
            }
        }
    }
}

/// Structure describing a mode instance in the configuration.
#[derive(Debug)]
pub struct Mode {
    /// Mode specific arguments that define this mode.
    pub args: ModeArgs,
    /// Hotkey to use during mode selection.
    pub hotkey: char,
    /// Name to use during mode selection.
    pub name: String,
}

/// Arguments that specify the details of the mode.
#[derive(Debug)]
pub enum ModeArgs {
    RegexMode(RegexArgs),
}

/// Arguments for [crate::modes::RegexMode].
#[derive(Debug)]
pub struct RegexArgs {
    /// The list of regexes that the mode will use for selections.
    pub regexes: Vec<String>,
}

impl ModeArgs {
    /// Whether the arguments describe a mode that can be made.
    pub open spec fn valid(&self) -> bool {
        match self {
            ModeArgs::RegexMode(args) => args.valid(),
        }
    }

    /// What checking the arguments gives.
    pub open spec fn checked(&self) -> Result<(), ConfigError> {
        match self {
            ModeArgs::RegexMode(args) => args.checked(),
        }
    }

    /// Checks the arguments of the mode.
    pub fn validate(&self) -> (checked: Result<(), ConfigError>)
        ensures
            checked == self.checked(),
            checked is Ok <==> self.valid(),
    {
        match self {
            ModeArgs::RegexMode(args) => args.validate(),
        }
    }
}

impl RegexArgs {
    /// The regexes as texts.
    pub open spec fn patterns(&self) -> Seq<Seq<char>> {
        self.regexes.deep_view()
    }

    /// Whether the regex crate accepts every regex.
    pub open spec fn accepted(&self) -> bool {
        patterns_accepted(self.patterns())
    }

    /// There is a regex, and the regex crate accepts every regex.
    pub open spec fn valid(&self) -> bool {
        self.patterns().len() > 0 && self.accepted()
    }

    /// What checking the arguments gives.
    pub open spec fn checked(&self) -> Result<(), ConfigError> {
        if self.patterns().len() == 0 {
            Err(ConfigError::NoRegexes)
        } else if !self.accepted() {
            Err(ConfigError::InvalidRegex)
        } else {
            Ok(())
        }
    }

    /// Checks that there is a regex and that the regex crate accepts every
    /// regex.
    pub fn validate(&self) -> (checked: Result<(), ConfigError>)
        ensures
            checked == self.checked(),
            checked is Ok <==> self.valid(),
    {
        if self.regexes.len() == 0 {
            return Err(ConfigError::NoRegexes);
        }
        let mut i: usize = 0;
        while i < self.regexes.len()
            invariant
                0 <= i <= self.regexes@.len(),
                self.patterns().len() == self.regexes@.len(),
                forall|k: int| 0 <= k < i ==> pattern_accepted(#[trigger] self.patterns()[k]),
            decreases self.regexes.len() - i,
        {
            if !is_accepted(self.regexes[i].as_str()) {
                assert(!pattern_accepted(self.patterns()[i as int]));
                return Err(ConfigError::InvalidRegex);
            }
            i += 1;
        }
        Ok(())
    }

    /// Whether the two hold the same regexes in the same order.
    pub fn same_as(&self, other: &RegexArgs) -> (same: bool)
        ensures
            same == (self.patterns() == other.patterns()),
    {
        if self.regexes.len() != other.regexes.len() {
            return false;
        }
        let mut i: usize = 0;
        while i < self.regexes.len()
            invariant
                0 <= i <= self.regexes@.len() == other.regexes@.len(),
                self.patterns().len() == self.regexes@.len(),
                other.patterns().len() == other.regexes@.len(),
                forall|k: int| 0 <= k < i ==> self.patterns()[k] == other.patterns()[k],
            decreases self.regexes.len() - i,
        {
            if self.regexes[i] != other.regexes[i] {
                assert(self.patterns()[i as int] != other.patterns()[i as int]);
                return false;
            }
            i += 1;
        }
        assert(self.patterns() =~= other.patterns());
        true
    }
}

/// Where the configuration file of the program lies below a directory of
/// configuration files.
pub open spec fn below_config_directory() -> Seq<char> {
    "/mless/mless.yaml"@
}

/// Where the directory of configuration files lies below the home
/// directory.
pub open spec fn below_home_directory() -> Seq<char> {
    "/.config/mless/mless.yaml"@
}

/// Where the configuration file lies in the home directory itself.
pub open spec fn in_home_directory() -> Seq<char> {
    "/.mless.yaml"@
}

/// The places of the configuration file, the one to be preferred first.
pub open spec fn candidates(
    config_directory: Option<Seq<char>>,
    home_directory: Option<Seq<char>>,
) -> Seq<Seq<char>> {
    (match config_directory {
        Some(directory) => seq![directory + below_config_directory()],
        None => Seq::empty(),
    }) + (match home_directory {
        Some(directory) => seq![
            directory + below_home_directory(),
            directory + in_home_directory(),
        ],
        None => Seq::empty(),
    })
}

/// The places where the configuration file is looked for, the one to be
/// preferred first:
/// - `mless/mless.yaml` in the directory of configuration files,
/// - `.config/mless/mless.yaml` in the home directory,
/// - `.mless.yaml` in the home directory.
///
/// A directory that is not known gives no place.
pub fn config_file_candidates(
    config_directory: Option<&str>,
    home_directory: Option<&str>,
) -> (places: Vec<String>)
    ensures
        places.deep_view() == candidates(
            match config_directory {
                Some(directory) => Some(directory@),
                None => None,
            },
            match home_directory {
                Some(directory) => Some(directory@),
                None => None,
            },
        ),
{
    let mut places: Vec<String> = Vec::new();
    if let Some(directory) = config_directory {
        places.push(directory.to_owned().concat("/mless/mless.yaml"));
    }
    if let Some(directory) = home_directory {
        places.push(directory.to_owned().concat("/.config/mless/mless.yaml"));
        places.push(directory.to_owned().concat("/.mless.yaml"));
    }
    assert(places.deep_view() =~= candidates(
        match config_directory {
            Some(directory) => Some(directory@),
            None => None,
        },
        match home_directory {
            Some(directory) => Some(directory@),
            None => None,
        },
    ));
    places
}

} // verus!
