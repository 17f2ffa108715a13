//! Colors as the configuration writes them.
use crossterm::style::Color;
use vstd::prelude::*;

verus! {

/// The color that crossterm knows under a name such as `dark_red`, if it
/// knows one.
pub uninterp spec fn named_color(name: Seq<char>) -> Option<Color>;

/// The color that crossterm reads from the parameters of an ANSI color
/// sequence such as `5;252` or `2;50;60;70`, if they are such parameters.
pub uninterp spec fn ansi_color(ansi: Seq<char>) -> Option<Color>;

/// `Color::try_from` of crossterm for a string slice: the color with that
/// name, whatever the case of its letters.
#[verifier::external_body]
fn color_by_name(name: &str) -> (color: Option<Color>)
    ensures
        color == named_color(name@),
{
    Color::try_from(name).ok()
}

/// `Color::parse_ansi` of crossterm: the color that the parameters of an
/// ANSI color sequence stand for.
#[verifier::external_body]
fn color_by_code(ansi: &str) -> (color: Option<Color>)
    ensures
        color == ansi_color(ansi@),
{
    Color::parse_ansi(ansi)
}

/// The color that a string of the configuration stands for: the color of
/// that name where there is one, else the color of that ANSI code.
pub open spec fn color_of(string: Seq<char>) -> Option<Color> {
    match named_color(string) {
        Some(color) => Some(color),
        None => ansi_color(string),
    }
}

/// Attempt converting the given string containing a color name or ANSI code into a color.
pub fn string_to_color(string: &str) -> (color: Option<Color>)
    ensures
        color == color_of(string@),
{
    // First attempt parsing it as a named color, e.g. dark_red
    if let Some(color) = color_by_name(string) {
        return Some(color);
    }
    // Otherwise consider it an ANSI input

    color_by_code(string)
}

} // verus!
