//! The control sequences of the terminal, as crossterm writes them.
//!
//! Each function appends what one command of crossterm writes to the frame.
//! For the commands that do not depend on the environment the contract
//! gives the characters; for colors, which crossterm leaves out when the
//! environment asks for no colors, it says only that the frame grows.
use crossterm::cursor::MoveTo;
use crossterm::style::{
    Attribute, Color, ResetColor, SetAttribute, SetBackgroundColor, SetForegroundColor,
};
use crossterm::terminal::{Clear, ClearType, DisableLineWrap, EnableLineWrap};
use crossterm::Command;
use vstd::prelude::*;

verus! {

/// The digit for a number below ten.
pub open spec fn digit(value: nat) -> char {
    if value == 0 {
        '0'
    } else if value == 1 {
        '1'
    } else if value == 2 {
        '2'
    } else if value == 3 {
        '3'
    } else if value == 4 {
        '4'
    } else if value == 5 {
        '5'
    } else if value == 6 {
        '6'
    } else if value == 7 {
        '7'
    } else if value == 8 {
        '8'
    } else {
        '9'
    }
}

/// A number in decimal digits.
pub open spec fn decimal(value: nat) -> Seq<char>
    decreases value,
{
    if value < 10 {
        seq![digit(value)]
    } else {
        decimal(value / 10).push(digit(value % 10))
    }
}

/// What resets the colors, and what resets the attributes.
pub open spec fn reset_code() -> Seq<char> {
    "\x1b[0m"@
}

/// What clears the screen.
pub open spec fn clear_code() -> Seq<char> {
    "\x1b[2J"@
}

/// What moves the cursor to a column and a row, both counted from 0.
pub open spec fn move_code(column: u16, row: u16) -> Seq<char> {
    "\x1b["@ + decimal((row + 1) as nat) + ";"@ + decimal((column + 1) as nat) + "H"@
}

/// What makes long lines continue on the next row.
pub open spec fn wrap_code() -> Seq<char> {
    "\x1b[?7h"@
}

/// What makes long lines end at the edge of the screen.
pub open spec fn no_wrap_code() -> Seq<char> {
    "\x1b[?7l"@
}

/// `ResetColor` of crossterm.
#[verifier::external_body]
pub(crate) fn write_reset_color(frame: &mut String)
    ensures
        final(frame)@ == old(frame)@ + reset_code(),
{
    let _ = ResetColor.write_ansi(frame);
}

/// `SetAttribute` of crossterm with `Attribute::Reset`, whose number is 0.
#[verifier::external_body]
pub(crate) fn write_reset_attributes(frame: &mut String)
    ensures
        final(frame)@ == old(frame)@ + reset_code(),
{
    let _ = SetAttribute(Attribute::Reset).write_ansi(frame);
}

/// `SetForegroundColor` of crossterm. What it writes depends on the
/// environment, so the contract says only that the frame is continued.
#[verifier::external_body]
pub(crate) fn write_foreground(frame: &mut String, color: Color)
    ensures
        old(frame)@.is_prefix_of(final(frame)@),
{
    let _ = SetForegroundColor(color).write_ansi(frame);
}

/// `SetBackgroundColor` of crossterm. What it writes depends on the
/// environment, so the contract says only that the frame is continued.
#[verifier::external_body]
pub(crate) fn write_background(frame: &mut String, color: Color)
    ensures
        old(frame)@.is_prefix_of(final(frame)@),
{
    let _ = SetBackgroundColor(color).write_ansi(frame);
}

/// `Clear` of crossterm with `ClearType::All`.
#[verifier::external_body]
pub(crate) fn write_clear(frame: &mut String)
    ensures
        final(frame)@ == old(frame)@ + clear_code(),
{
    let _ = Clear(ClearType::All).write_ansi(frame);
}

/// `MoveTo` of crossterm: it writes the row and the column, each counted
/// from 1, in decimal digits. It adds 1 to both, so neither may be the
/// largest `u16`.
#[verifier::external_body]
pub(crate) fn write_move_to(frame: &mut String, column: u16, row: u16)
    requires
        column < u16::MAX,
        row < u16::MAX,
    ensures
        final(frame)@ == old(frame)@ + move_code(column, row),
{
    let _ = MoveTo(column, row).write_ansi(frame);
}

/// `EnableLineWrap` of crossterm.
#[verifier::external_body]
pub(crate) fn write_enable_line_wrap(frame: &mut String)
    ensures
        final(frame)@ == old(frame)@ + wrap_code(),
{
    let _ = EnableLineWrap.write_ansi(frame);
}

/// `DisableLineWrap` of crossterm.
#[verifier::external_body]
pub(crate) fn write_disable_line_wrap(frame: &mut String)
    ensures
        final(frame)@ == old(frame)@ + no_wrap_code(),
{
    let _ = DisableLineWrap.write_ansi(frame);
}

} // verus!
