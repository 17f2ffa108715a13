//! Types used in the renderer API.
use crossterm::style::Color;
use vstd::prelude::*;

verus! {

/// A terminal color: the library carries it through to the terminal
/// commands and asks only whether two colors are the same.
#[verifier::external_type_specification]
#[verifier::external_body]
pub struct ExColor(Color);

/// Struct to describe text style.
///
/// Used in [Draw].
#[derive(Debug, Copy, Clone, PartialEq, Eq)]
pub struct TextStyle {
    pub foreground: Color,
    pub background: Color,
}

/// Struct to describe a styled segment of data.
///
/// Used in [Draw::StyledData].
#[derive(Debug, PartialEq, Eq)]
pub struct StyledSegment {
    /// Byte offset of the start of the segment from the start of data.
    pub start: usize,
    /// Length of the segment in bytes.
    pub length: usize,
    /// Style of the segment.
    pub style: TextStyle,
}

/// Struct to describe text that is drawn over the data.
///
/// Used in [Draw::StyledData].
#[derive(Debug, PartialEq, Eq)]
pub struct DataOverlay {
    /// The text to draw.
    pub text: String,
    /// Byte offset from the start of data where to start drawing the text.
    pub location: usize,
}

/// Instruction to the renderer about what should be drawn to the screen.
#[derive(Debug, PartialEq, Eq)]
pub enum Draw {
    /// Draw the data, i.e. the text from which the selection is performed
    /// with parts of data in different styles and text drawn over some parts.
    ///
    /// If some of the segments are overlapping, the last one specified takes precedence.
    StyledData {
        /// The segments of the data to style differently than the source data.
        styled_segments: Vec<StyledSegment>,
        /// Parts of the data to replace with the given text.
        text_overlays: Vec<DataOverlay>,
    },
    /// Draw the data as it is.
    Data,
    /// Draw the dialog that offers the modes, each with its hotkey and name.
    ModeSelectionDialog(Vec<(char, String)>),
}

/// The `==` that crossterm has for `Color`.
///
/// The contract says that it holds of equal colors and of no others, as
/// the comparison that crossterm derives for this enum of plain values
/// does.
#[verifier::external_body]
fn same_color(left: &Color, right: &Color) -> (same: bool)
    ensures
        same == (*left == *right),
{
    left == right
}

/// The color with the given number in the palette of 256 colors.
pub uninterp spec fn palette_color(value: u8) -> Color;

/// `Color::AnsiValue` of crossterm: the color with the given number in the
/// palette of 256 colors.
#[verifier::external_body]
pub(crate) fn ansi_value(value: u8) -> (color: Color)
    ensures
        color == palette_color(value),
{
    Color::AnsiValue(value)
}

/// The style of a hit: nearly black on light grey.
pub open spec fn highlight_style() -> TextStyle {
    TextStyle { foreground: palette_color(232), background: palette_color(252) }
}

/// The style of a hint: nearly black on orange.
pub open spec fn hint_style() -> TextStyle {
    TextStyle { foreground: palette_color(232), background: palette_color(208) }
}

/// The style in which hits are drawn.
pub fn highlight() -> (style: TextStyle)
    ensures
        style == highlight_style(),
{
    TextStyle { foreground: ansi_value(232), background: ansi_value(252) }
}

/// The style in which hints are drawn.
pub fn hint() -> (style: TextStyle)
    ensures
        style == hint_style(),
{
    TextStyle { foreground: ansi_value(232), background: ansi_value(208) }
}

impl TextStyle {
    /// Whether the two styles have the same colors.
    pub fn same_as(&self, other: &TextStyle) -> (same: bool)
        ensures
            same == (*self == *other),
    {
        same_color(&self.foreground, &other.foreground) && same_color(
            &self.background,
            &other.background,
        )
    }
}

impl StyledSegment {
    /// Whether the segment covers the byte offset.
    pub open spec fn covers(&self, position: int) -> bool {
        self.start <= position < self.start + self.length
    }

    /// Whether the segment covers the byte offset.
    pub fn contains(&self, position: usize) -> (inside: bool)
        ensures
            inside == self.covers(position as int),
    {
        position >= self.start && position - self.start < self.length
    }
}

} // verus!
