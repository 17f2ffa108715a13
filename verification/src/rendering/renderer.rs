//! Composing what is drawn for a page.
//!
//! The page is drawn character by character. Before each character the
//! style is changed where the character begins, leaves or changes the
//! styled segment; a character of an ANSI sequence inside a styled segment
//! is left out; the characters of a text overlay take the place of the
//! characters of the page that are drawn next.
use crate::configuration::Config;
use crate::offsets::position_removed;
use crate::rendering::ansi_sequence_extractor::{
    ansi_sequences, leading_before, lemma_leading_before_bounds, sequence_texts,
    AnsiSequenceExtractor,
};
use crate::rendering::api_types::{DataOverlay, Draw, StyledSegment, TextStyle};
use crate::rendering::terminal::{
    clear_code, move_code, no_wrap_code, reset_code, wrap_code, write_background, write_clear,
    write_disable_line_wrap, write_enable_line_wrap, write_foreground, write_move_to,
    write_reset_attributes, write_reset_color,
};
use crate::text::{char_cells, char_indices, characters};
use crossterm::style::Color;
use std::collections::VecDeque;
use vstd::prelude::*;
use vstd::string::*;
use vstd::utf8::*;

verus! {

/// One step of drawing a page.
#[derive(Debug, Clone, Copy, PartialEq, Eq)]
pub enum Paint {
    /// Reset the text attributes.
    ResetAttributes,
    /// Reset the colors.
    ResetColor,
    /// Set the foreground color.
    Foreground(Color),
    /// Set the background color.
    Background(Color),
    /// Print a character.
    Print(char),
    /// Print again the ANSI sequence of the page with the given number.
    Replay(usize),
    /// Clear the screen.
    Clear,
    /// Move the cursor to the column and the row, both counted from 0.
    MoveTo(u16, u16),
    /// Let long lines continue on the next row.
    EnableLineWrap,
    /// Let long lines end at the edge of the screen.
    DisableLineWrap,
}

/// What the drawing of a page carries from one character to the next.
pub struct Brush {
    /// The characters of overlays that have not been drawn yet.
    pub pending: Seq<char>,
    /// The style of the segment that the character before was in.
    pub last: Option<TextStyle>,
}

/// Index of the first overlay that begins at `position`, or the number of
/// overlays where none does.
pub open spec fn first_overlay(overlays: Seq<DataOverlay>, position: int) -> int
    decreases overlays.len(),
{
    if overlays.len() == 0 || overlays[0].location == position {
        0
    } else {
        1 + first_overlay(overlays.drop_first(), position)
    }
}

/// The style of the last segment that covers `position`.
pub open spec fn active_style(segments: Seq<StyledSegment>, position: int) -> Option<TextStyle>
    decreases segments.len(),
{
    if segments.len() == 0 {
        None
    } else if segments.last().covers(position) {
        Some(segments.last().style)
    } else {
        active_style(segments.drop_last(), position)
    }
}

/// The steps that set a style.
pub open spec fn apply_style(style: TextStyle) -> Seq<Paint> {
    seq![
        Paint::ResetAttributes,
        Paint::Foreground(style.foreground),
        Paint::Background(style.background),
    ]
}

/// The steps that print again the first `count` sequences of the page.
pub open spec fn replay(count: nat) -> Seq<Paint> {
    Seq::new(count, |i: int| Paint::Replay(i as usize))
}

/// The steps that take the drawing from the style of the character before
/// to the style of the character at `position`.
///
/// Into a segment, or from one style to another, the style is set. Out of
/// a segment, attributes and colors are reset and every sequence at the
/// front of the page that ends before `position` is printed again.
pub open spec fn style_change(
    last: Option<TextStyle>,
    now: Option<TextStyle>,
    ranges: Seq<(usize, usize)>,
    position: int,
) -> Seq<Paint> {
    match (last, now) {
        (Some(_), None) => seq![Paint::ResetAttributes, Paint::ResetColor] + replay(
            leading_before(ranges, position),
        ),
        (None, Some(style)) => apply_style(style),
        (Some(previous), Some(style)) => if previous != style {
            apply_style(style)
        } else {
            Seq::empty()
        },
        (None, None) => Seq::empty(),
    }
}

/// The step that prints a character as it is.
pub open spec fn printing(shown: char) -> Paint {
    Paint::Print(shown)
}

/// The steps that print a character: a line feed is preceded by a carriage
/// return.
pub open spec fn print_character(shown: char) -> Seq<Paint> {
    if shown == '\n' {
        seq![printing('\r'), printing('\n')]
    } else {
        seq![printing(shown)]
    }
}

/// The pending characters once the overlay that begins at `position`, if
/// there is one, has been added.
pub open spec fn pending_at(overlays: Seq<DataOverlay>, pending: Seq<char>, position: int) -> Seq<
    char,
> {
    if first_overlay(overlays, position) < overlays.len() {
        pending + overlays[first_overlay(overlays, position)].text@
    } else {
        pending
    }
}

/// Whether the character at `position` is left out: it belongs to an ANSI
/// sequence and lies in a styled segment.
pub open spec fn left_out(
    segments: Seq<StyledSegment>,
    ranges: Seq<(usize, usize)>,
    position: int,
) -> bool {
    active_style(segments, position) is Some && position_removed(ranges, position)
}

/// The steps for the character `cell`.
pub open spec fn cell_paints(
    segments: Seq<StyledSegment>,
    overlays: Seq<DataOverlay>,
    ranges: Seq<(usize, usize)>,
    brush: Brush,
    cell: (usize, char),
) -> Seq<Paint> {
    let position = cell.0 as int;
    let pending = pending_at(overlays, brush.pending, position);
    let change = style_change(brush.last, active_style(segments, position), ranges, position);
    if left_out(segments, ranges, position) {
        change
    } else if pending.len() > 0 {
        change + print_character(pending[0])
    } else {
        change + print_character(cell.1)
    }
}

/// What is carried on behind the character `cell`.
pub open spec fn cell_brush(
    segments: Seq<StyledSegment>,
    overlays: Seq<DataOverlay>,
    ranges: Seq<(usize, usize)>,
    brush: Brush,
    cell: (usize, char),
) -> Brush {
    let position = cell.0 as int;
    let pending = pending_at(overlays, brush.pending, position);
    Brush {
        pending: if !left_out(segments, ranges, position) && pending.len() > 0 {
            pending.drop_first()
        } else {
            pending
        },
        last: active_style(segments, position),
    }
}

/// What is carried on behind the characters `cells`.
pub open spec fn brush_after(
    segments: Seq<StyledSegment>,
    overlays: Seq<DataOverlay>,
    ranges: Seq<(usize, usize)>,
    cells: Seq<(usize, char)>,
) -> Brush
    decreases cells.len(),
{
    if cells.len() == 0 {
        Brush { pending: Seq::empty(), last: None }
    } else {
        cell_brush(
            segments,
            overlays,
            ranges,
            brush_after(segments, overlays, ranges, cells.drop_last()),
            cells.last(),
        )
    }
}

/// The steps for the characters `cells`.
pub open spec fn cells_paints(
    segments: Seq<StyledSegment>,
    overlays: Seq<DataOverlay>,
    ranges: Seq<(usize, usize)>,
    cells: Seq<(usize, char)>,
) -> Seq<Paint>
    decreases cells.len(),
{
    if cells.len() == 0 {
        Seq::empty()
    } else {
        cells_paints(segments, overlays, ranges, cells.drop_last()) + cell_paints(
            segments,
            overlays,
            ranges,
            brush_after(segments, overlays, ranges, cells.drop_last()),
            cells.last(),
        )
    }
}

/// The characters of a page that are drawn: all but one line feed at the
/// end.
pub open spec fn drawn_cells(text: Seq<char>) -> Seq<(usize, char)> {
    if text.len() > 0 && text.last() == '\n' {
        char_cells(text).drop_last()
    } else {
        char_cells(text)
    }
}

/// The steps that draw a page with its styled segments and overlays.
pub open spec fn styled_data_paints(
    text: Seq<char>,
    segments: Seq<StyledSegment>,
    overlays: Seq<DataOverlay>,
) -> Seq<Paint> {
    cells_paints(segments, overlays, ansi_sequences(encode_utf8(text)), drawn_cells(text))
}

/// `first_overlay` finds the first overlay at the position.
pub proof fn lemma_first_overlay(overlays: Seq<DataOverlay>, position: int)
    ensures
        0 <= first_overlay(overlays, position) <= overlays.len(),
        first_overlay(overlays, position) < overlays.len() ==> overlays[first_overlay(
            overlays,
            position,
        )].location == position,
        forall|k: int|
            0 <= k < first_overlay(overlays, position) ==> (#[trigger] overlays[k]).location
                != position,
    decreases overlays.len(),
{
    if overlays.len() > 0 && overlays[0].location != position {
        let rest = overlays.drop_first();
        lemma_first_overlay(rest, position);
        assert forall|k: int| 0 <= k < first_overlay(overlays, position) implies (
        #[trigger] overlays[k]).location != position by {
            if k > 0 {
                assert(overlays[k] == rest[k - 1]);
            }
        }
    }
}

/// The first overlay that begins at `position`.
fn find_overlay(overlays: &[DataOverlay], position: usize) -> (found: Option<usize>)
    ensures
        match found {
            Some(at) => at == first_overlay(overlays@, position as int) < overlays@.len(),
            None => first_overlay(overlays@, position as int) == overlays@.len(),
        },
{
    let mut at: usize = 0;
    proof {
        lemma_first_overlay(overlays@, position as int);
    }
    while at < overlays.len()
        invariant
            0 <= at <= overlays@.len(),
            forall|k: int| 0 <= k < at ==> (#[trigger] overlays@[k]).location != position,
            0 <= first_overlay(overlays@, position as int) <= overlays@.len(),
            first_overlay(overlays@, position as int) < overlays@.len() ==> overlays@[first_overlay(
                overlays@,
                position as int,
            )].location == position,
            forall|k: int|
                0 <= k < first_overlay(overlays@, position as int) ==> (
                #[trigger] overlays@[k]).location != position,
        decreases overlays.len() - at,
    {
        if overlays[at].location == position {
            return Some(at);
        }
        at += 1;
    }
    None
}

/// The style of the last segment that covers `position`.
fn find_style(segments: &[StyledSegment], position: usize) -> (style: Option<TextStyle>)
    ensures
        style == active_style(segments@, position as int),
{
    let mut at: usize = segments.len();
    assert(segments@.take(at as int) =~= segments@);
    while at > 0
        invariant
            0 <= at <= segments@.len(),
            active_style(segments@, position as int) == active_style(
                segments@.take(at as int),
                position as int,
            ),
        decreases at,
    {
        assert(segments@.take(at as int).drop_last() =~= segments@.take(at - 1));
        if segments[at - 1].contains(position) {
            return Some(segments[at - 1].style);
        }
        at -= 1;
    }
    None
}

/// Adds the steps that set a style.
fn push_style(paints: &mut Vec<Paint>, style: &TextStyle)
    ensures
        final(paints)@ == old(paints)@ + apply_style(*style),
{
    paints.push(Paint::ResetAttributes);
    paints.push(Paint::Foreground(style.foreground));
    paints.push(Paint::Background(style.background));
    assert(paints@ =~= old(paints)@ + apply_style(*style));
}

/// Update the terminal style when switching in and out of styled segments.
fn update_style(
    last_segment_style: &Option<TextStyle>,
    segment_style: &Option<TextStyle>,
    ansi_sequences: &AnsiSequenceExtractor,
    paints: &mut Vec<Paint>,
    current_position: usize,
)
    ensures
        final(paints)@ == old(paints)@ + style_change(
            *last_segment_style,
            *segment_style,
            ansi_sequences.ranges(),
            current_position as int,
        ),
{
    let ghost before = paints@;
    match (last_segment_style, segment_style) {
        (Some(_), None) => {
            // Just exited from a styled segment, restore any styling disturbed by it
            paints.push(Paint::ResetAttributes);
            paints.push(Paint::ResetColor);
            // In order to restore the styling, this applies all the sequences
            // from the beginning of the data again.
            let count = ansi_sequences.get_all_sequences_before(current_position).len();
            let mut i: usize = 0;
            while i < count
                invariant
                    0 <= i <= count,
                    paints@ == before + seq![Paint::ResetAttributes, Paint::ResetColor] + replay(
                        i as nat,
                    ),
                decreases count - i,
            {
                paints.push(Paint::Replay(i));
                assert(replay(i as nat).push(Paint::Replay(i)) =~= replay((i + 1) as nat));
                i += 1;
            }
            assert(paints@ =~= before + (seq![Paint::ResetAttributes, Paint::ResetColor] + replay(
                count as nat,
            )));
        },
        (None, Some(style)) => {
            // Just entered a segment, apply its style
            push_style(paints, style);
        },
        (Some(last_style), Some(style)) => {
            if !last_style.same_as(style) {
                // Just switched from one segment to another, apply the style
                // of the new segment
                push_style(paints, style);
            } else {
                assert(paints@ =~= before + Seq::<Paint>::empty());
            }
        },
        (None, None) => {
            assert(paints@ =~= before + Seq::<Paint>::empty());
        },
    }
}

/// Adds the steps that print a character.
fn push_character(paints: &mut Vec<Paint>, shown: char)
    ensures
        final(paints)@ == old(paints)@ + print_character(shown),
{
    if shown == '\n' {
        paints.push(Paint::Print('\r'));
    }
    paints.push(Paint::Print(shown));
    assert(paints@ =~= old(paints)@ + print_character(shown));
}

/// The steps that draw the styled parts of data, taking into account the
/// ANSI sequences that the data holds.
///
/// `ansi_sequences` holds the ANSI sequences of `data`. The steps are added
/// to `paints`.
pub fn draw_styled_data(
    paints: &mut Vec<Paint>,
    data: &str,
    ansi_sequences: &AnsiSequenceExtractor,
    styled_segments: &[StyledSegment],
    text_overlays: &[DataOverlay],
)
    requires
        ansi_sequences.indexes(data@),
    ensures
        final(paints)@ == old(paints)@ + styled_data_paints(
            data@,
            styled_segments@,
            text_overlays@,
        ),
{
    let ghost ranges = ansi_sequences.ranges();
    let ghost before_all = paints@;
    let mut cells = char_indices(data);
    // Ignore the terminating new line if present
    if cells.len() > 0 && cells[cells.len() - 1].1 == '\n' {
        cells.pop();
    }
    assert(cells@ == drawn_cells(data@));
    assert(paints@ =~= before_all + Seq::<Paint>::empty());
    let mut overlay_chars: VecDeque<char> = VecDeque::new();
    let mut last_intra_segment_style: Option<TextStyle> = None;
    let mut i: usize = 0;
    assert(cells@.take(0) =~= Seq::<(usize, char)>::empty());
    while i < cells.len()
        invariant
            0 <= i <= cells@.len(),
            ranges == ansi_sequences.ranges(),
            paints@ == before_all + cells_paints(
                styled_segments@,
                text_overlays@,
                ranges,
                cells@.take(i as int),
            ),
            brush_after(styled_segments@, text_overlays@, ranges, cells@.take(i as int)) == (Brush {
                pending: overlay_chars@,
                last: last_intra_segment_style,
            }),
        decreases cells.len() - i,
    {
        let (byte_position, character) = cells[i];
        let ghost before = Brush { pending: overlay_chars@, last: last_intra_segment_style };
        proof {
            assert(cells@.take(i + 1).drop_last() =~= cells@.take(i as int));
            assert(cells@.take(i + 1).last() == cells@[i as int]);
        }

        // Handle start of overlay
        if let Some(at) = find_overlay(text_overlays, byte_position) {
            let ghost queued = overlay_chars@;
            let added = &text_overlays[at].text;
            for overlay_char in iter: added.as_str().chars()
                invariant
                    overlay_chars@ == queued + iter.seq().take(iter.index()),
            {
                overlay_chars.push_back(overlay_char);
            }
        }
        assert(overlay_chars@ =~= pending_at(text_overlays@, before.pending, byte_position as int));

        // Style from segments
        let intra_segment_style = find_style(styled_segments, byte_position);
        update_style(
            &last_intra_segment_style,
            &intra_segment_style,
            ansi_sequences,
            paints,
            byte_position,
        );
        last_intra_segment_style = intra_segment_style;

        // Do not print ANSI sequences inside of styled segments
        let inside_styled_segment = intra_segment_style.is_some();
        let current_char_is_ansi_sequence = ansi_sequences.is_inside_sequence(byte_position);
        if !(inside_styled_segment && current_char_is_ansi_sequence) {
            // Print character
            let shown = match overlay_chars.pop_front() {
                Some(overlay_char) => overlay_char,
                None => character,
            };
            push_character(paints, shown);
        }
        proof {
            let step = cell_paints(
                styled_segments@,
                text_overlays@,
                ranges,
                before,
                cells@[i as int],
            );
            assert(paints@ =~= before_all + (cells_paints(
                styled_segments@,
                text_overlays@,
                ranges,
                cells@.take(i as int),
            ) + step));
            assert(overlay_chars@ =~= cell_brush(
                styled_segments@,
                text_overlays@,
                ranges,
                before,
                cells@[i as int],
            ).pending);
        }
        i += 1;
    }
    assert(cells@.take(cells@.len() as int) =~= cells@);
}

/// The steps that print the characters of a text.
pub open spec fn prints(text: Seq<char>) -> Seq<Paint>
    decreases text.len(),
{
    if text.len() == 0 {
        Seq::empty()
    } else {
        prints(text.drop_last()).push(printing(text.last()))
    }
}

/// The divider of the dialog, followed by spaces up to the width of the
/// dialog: they cover the page below the dialog.
pub open spec fn divider_row(width: nat) -> Seq<char>
    decreases width,
{
    if width <= 1 {
        seq!['\u{2502}']
    } else {
        divider_row((width - 1) as nat).push(' ')
    }
}

/// The hotkey of a mode as the dialog shows it.
pub open spec fn hotkey_label(hotkey: char) -> Seq<char> {
    seq![' ', '[', hotkey, ']', ' ']
}

/// The steps for one row of the dialog, which begins at `column`: the
/// divider, and in every row but the first a mode, as long as there are
/// modes.
pub open spec fn dialog_row(
    config: Config,
    modes: Seq<(char, String)>,
    column: u16,
    row: u16,
) -> Seq<Paint> {
    seq![Paint::MoveTo(column, row), Paint::Foreground(config.mode_switch_divider_fg)] + prints(
        divider_row(config.mode_switch_width as nat),
    ) + if 1 <= row <= modes.len() {
        seq![
            Paint::MoveTo((column + 1) as u16, row),
            Paint::Foreground(config.mode_switch_hotkey_fg),
        ] + prints(hotkey_label(modes[row - 1].0)) + seq![
            Paint::ResetColor,
            Paint::Foreground(config.mode_switch_mode_name_fg),
        ] + prints(modes[row - 1].1@)
    } else {
        Seq::empty()
    }
}

/// The steps for the first `rows` rows of the dialog.
pub open spec fn dialog_rows(
    config: Config,
    modes: Seq<(char, String)>,
    column: u16,
    rows: nat,
) -> Seq<Paint>
    decreases rows,
{
    if rows == 0 {
        Seq::empty()
    } else {
        dialog_rows(config, modes, column, (rows - 1) as nat) + dialog_row(
            config,
            modes,
            column,
            (rows - 1) as u16,
        )
    }
}

/// The steps that draw the mode selection dialog at the right edge of a
/// screen of `cols` columns and `rows` rows: nothing where the screen is
/// not wider than the dialog.
pub open spec fn dialog_paints(
    config: Config,
    modes: Seq<(char, String)>,
    cols: u16,
    rows: u16,
) -> Seq<Paint> {
    let width = config.mode_switch_width as u16;
    if cols <= width {
        Seq::empty()
    } else {
        seq![Paint::DisableLineWrap] + dialog_rows(
            config,
            modes,
            (cols - width) as u16,
            rows as nat,
        ) + seq![Paint::EnableLineWrap]
    }
}

/// The steps with which every frame begins: colors and attributes are
/// reset, the screen is cleared, the cursor is put into the corner and
/// long lines are let continue on the next row.
pub open spec fn frame_start() -> Seq<Paint> {
    seq![
        Paint::ResetColor,
        Paint::ResetAttributes,
        Paint::Clear,
        Paint::MoveTo(0, 0),
        Paint::EnableLineWrap,
    ]
}

/// The steps for one draw instruction.
pub open spec fn instruction_paints(
    text: Seq<char>,
    instruction: Draw,
    config: Config,
    cols: u16,
    rows: u16,
) -> Seq<Paint> {
    match instruction {
        Draw::StyledData { styled_segments, text_overlays } => styled_data_paints(
            text,
            styled_segments@,
            text_overlays@,
        ),
        Draw::Data => styled_data_paints(text, Seq::empty(), Seq::empty()),
        Draw::ModeSelectionDialog(modes) => dialog_paints(config, modes@, cols, rows),
    }
}

/// The steps for the draw instructions, in their order.
pub open spec fn instructions_paints(
    text: Seq<char>,
    instructions: Seq<Draw>,
    config: Config,
    cols: u16,
    rows: u16,
) -> Seq<Paint>
    decreases instructions.len(),
{
    if instructions.len() == 0 {
        Seq::empty()
    } else {
        instructions_paints(text, instructions.drop_last(), config, cols, rows)
            + instruction_paints(text, instructions.last(), config, cols, rows)
    }
}

/// The steps of a frame.
pub open spec fn frame_paints(
    text: Seq<char>,
    instructions: Seq<Draw>,
    config: Config,
    cols: u16,
    rows: u16,
) -> Seq<Paint> {
    frame_start() + instructions_paints(text, instructions, config, cols, rows)
}

/// Rendering the same page with the same instructions for the same screen
/// gives the same steps: the steps of a frame are a function of the text,
/// the segments and the overlays alone.
pub proof fn lemma_rendering_is_repeatable(
    first_text: Seq<char>,
    first_segments: Seq<StyledSegment>,
    first_overlays: Seq<DataOverlay>,
    second_text: Seq<char>,
    second_segments: Seq<StyledSegment>,
    second_overlays: Seq<DataOverlay>,
)
    requires
        first_text == second_text,
        first_segments == second_segments,
        first_overlays == second_overlays,
    ensures
        styled_data_paints(first_text, first_segments, first_overlays) == styled_data_paints(
            second_text,
            second_segments,
            second_overlays,
        ),
{
}

/// What a step writes to the frame, where that does not depend on the
/// environment. `contents` are the texts of the ANSI sequences of the
/// page.
pub open spec fn paint_code(paint: Paint, contents: Seq<Seq<char>>) -> Option<Seq<char>> {
    match paint {
        Paint::ResetAttributes => Some(reset_code()),
        Paint::ResetColor => Some(reset_code()),
        Paint::Foreground(_) => None,
        Paint::Background(_) => None,
        Paint::Print(shown) => Some(seq![shown]),
        Paint::Replay(index) => Some(contents[index as int]),
        Paint::Clear => Some(clear_code()),
        Paint::MoveTo(column, row) => Some(move_code(column, row)),
        Paint::EnableLineWrap => Some(wrap_code()),
        Paint::DisableLineWrap => Some(no_wrap_code()),
    }
}

/// The parts put together.
pub open spec fn joined(parts: Seq<Seq<char>>) -> Seq<char>
    decreases parts.len(),
{
    if parts.len() == 0 {
        Seq::empty()
    } else {
        joined(parts.drop_last()) + parts.last()
    }
}

/// The frame is what the steps write: it is made of one part for every
/// step, in the order of the steps, and the part of a step that does not
/// depend on the environment is the code of that step.
pub open spec fn written(
    frame: Seq<char>,
    parts: Seq<Seq<char>>,
    paints: Seq<Paint>,
    contents: Seq<Seq<char>>,
) -> bool {
    &&& frame == joined(parts)
    &&& parts.len() == paints.len()
    &&& forall|i: int|
        0 <= i < paints.len() ==> (paint_code(#[trigger] paints[i], contents) matches Some(code)
            ==> parts[i] == code)
}

/// The steps can be written for a page with `sequences` ANSI sequences:
/// only those are printed again, and the cursor is not moved beyond what
/// the terminal can be told.
pub open spec fn writable(paints: Seq<Paint>, sequences: nat) -> bool {
    forall|i: int|
        0 <= i < paints.len() ==> match #[trigger] paints[i] {
            Paint::Replay(index) => index < sequences,
            Paint::MoveTo(column, row) => column < u16::MAX && row < u16::MAX,
            _ => true,
        }
}

/// Steps that can be written, put together, can be written.
pub proof fn lemma_writable_concat(first: Seq<Paint>, second: Seq<Paint>, sequences: nat)
    requires
        writable(first, sequences),
        writable(second, sequences),
    ensures
        writable(first + second, sequences),
{
    assert forall|i: int| 0 <= i < (first + second).len() implies match #[trigger] (first
        + second)[i] {
        Paint::Replay(index) => index < sequences,
        Paint::MoveTo(column, row) => column < u16::MAX && row < u16::MAX,
        _ => true,
    } by {
        if i < first.len() {
            assert((first + second)[i] == first[i]);
        } else {
            assert((first + second)[i] == second[i - first.len()]);
        }
    }
}

/// The steps that print a character can be written.
pub proof fn lemma_print_character_writable(shown: char, sequences: nat)
    ensures
        writable(print_character(shown), sequences),
{
}

/// The steps that draw characters can be written.
pub proof fn lemma_cells_paints_writable(
    segments: Seq<StyledSegment>,
    overlays: Seq<DataOverlay>,
    ranges: Seq<(usize, usize)>,
    cells: Seq<(usize, char)>,
)
    ensures
        writable(cells_paints(segments, overlays, ranges, cells), ranges.len()),
    decreases cells.len(),
{
    if cells.len() > 0 {
        let brush = brush_after(segments, overlays, ranges, cells.drop_last());
        let position = cells.last().0 as int;
        let change = style_change(brush.last, active_style(segments, position), ranges, position);
        let pending = pending_at(overlays, brush.pending, position);
        lemma_cells_paints_writable(segments, overlays, ranges, cells.drop_last());
        lemma_leading_before_bounds(ranges, position);
        assert(writable(change, ranges.len()));
        if !left_out(segments, ranges, position) {
            let shown = if pending.len() > 0 {
                pending[0]
            } else {
                cells.last().1
            };
            lemma_print_character_writable(shown, ranges.len());
            lemma_writable_concat(change, print_character(shown), ranges.len());
        }
        lemma_writable_concat(
            cells_paints(segments, overlays, ranges, cells.drop_last()),
            cell_paints(segments, overlays, ranges, brush, cells.last()),
            ranges.len(),
        );
    }
}

/// To a longer text belongs one more step.
pub proof fn lemma_prints_push(text: Seq<char>, shown: char)
    ensures
        prints(text.push(shown)) == prints(text).push(printing(shown)),
{
    assert(text.push(shown).drop_last() =~= text);
}

/// The steps for the label of a hotkey.
pub proof fn lemma_hotkey_label(hotkey: char)
    ensures
        prints(hotkey_label(hotkey)) == seq![
            printing(' '),
            printing('['),
            printing(hotkey),
            printing(']'),
            printing(' '),
        ],
{
    let empty = Seq::<char>::empty();
    lemma_prints_push(empty, ' ');
    lemma_prints_push(empty.push(' '), '[');
    lemma_prints_push(empty.push(' ').push('['), hotkey);
    lemma_prints_push(empty.push(' ').push('[').push(hotkey), ']');
    lemma_prints_push(empty.push(' ').push('[').push(hotkey).push(']'), ' ');
    assert(hotkey_label(hotkey) =~= empty.push(' ').push('[').push(hotkey).push(']').push(' '));
    assert(prints(hotkey_label(hotkey)) =~= seq![
        printing(' '),
        printing('['),
        printing(hotkey),
        printing(']'),
        printing(' '),
    ]);
}

/// The divider row of width 1 is the divider; a wider one has one space
/// more.
pub proof fn lemma_divider_row(width: nat)
    ensures
        prints(divider_row(1)) == seq![printing('\u{2502}')],
        width >= 1 ==> prints(divider_row(width + 1)) == prints(divider_row(width)).push(
            printing(' '),
        ),
{
    lemma_prints_push(Seq::empty(), '\u{2502}');
    assert(divider_row(1) =~= Seq::<char>::empty().push('\u{2502}'));
    assert(prints(divider_row(1)) =~= seq![printing('\u{2502}')]);
    if width >= 1 {
        lemma_prints_push(divider_row(width), ' ');
    }
}

/// The steps that print a text can be written.
pub proof fn lemma_prints_writable(text: Seq<char>, sequences: nat)
    ensures
        writable(prints(text), sequences),
    decreases text.len(),
{
    if text.len() > 0 {
        lemma_prints_writable(text.drop_last(), sequences);
    }
}

/// The steps for the rows of the dialog can be written.
pub proof fn lemma_dialog_rows_writable(
    config: Config,
    modes: Seq<(char, String)>,
    column: u16,
    rows: nat,
    sequences: nat,
)
    requires
        column < u16::MAX - 1,
        rows <= u16::MAX,
    ensures
        writable(dialog_rows(config, modes, column, rows), sequences),
    decreases rows,
{
    if rows > 0 {
        let row = (rows - 1) as u16;
        lemma_dialog_rows_writable(config, modes, column, (rows - 1) as nat, sequences);
        let divider = seq![
            Paint::MoveTo(column, row),
            Paint::Foreground(config.mode_switch_divider_fg),
        ];
        lemma_prints_writable(divider_row(config.mode_switch_width as nat), sequences);
        lemma_writable_concat(
            divider,
            prints(divider_row(config.mode_switch_width as nat)),
            sequences,
        );
        if 1 <= row <= modes.len() {
            let hotkey = seq![
                Paint::MoveTo((column + 1) as u16, row),
                Paint::Foreground(config.mode_switch_hotkey_fg),
            ];
            let name = seq![
                Paint::ResetColor,
                Paint::Foreground(config.mode_switch_mode_name_fg),
            ];
            lemma_prints_writable(hotkey_label(modes[row - 1].0), sequences);
            lemma_prints_writable(modes[row - 1].1@, sequences);
            lemma_writable_concat(hotkey, prints(hotkey_label(modes[row - 1].0)), sequences);
            lemma_writable_concat(hotkey + prints(hotkey_label(modes[row - 1].0)), name, sequences);
            lemma_writable_concat(
                hotkey + prints(hotkey_label(modes[row - 1].0)) + name,
                prints(modes[row - 1].1@),
                sequences,
            );
            lemma_writable_concat(
                divider + prints(divider_row(config.mode_switch_width as nat)),
                hotkey + prints(hotkey_label(modes[row - 1].0)) + name + prints(modes[row - 1].1@),
                sequences,
            );
        } else {
            assert(dialog_row(config, modes, column, row) =~= divider + prints(
                divider_row(config.mode_switch_width as nat),
            ));
        }
        lemma_writable_concat(
            dialog_rows(config, modes, column, (rows - 1) as nat),
            dialog_row(config, modes, column, row),
            sequences,
        );
    }
}

/// The steps of a frame can be written for a screen that is not as wide as
/// the terminal can at most be told.
pub proof fn lemma_frame_writable(
    text: Seq<char>,
    instructions: Seq<Draw>,
    config: Config,
    cols: u16,
    rows: u16,
)
    requires
        cols < u16::MAX - 1,
    ensures
        writable(
            instructions_paints(text, instructions, config, cols, rows),
            ansi_sequences(encode_utf8(text)).len(),
        ),
        writable(
            frame_paints(text, instructions, config, cols, rows),
            ansi_sequences(encode_utf8(text)).len(),
        ),
    decreases instructions.len(),
{
    let sequences = ansi_sequences(encode_utf8(text)).len();
    let ranges = ansi_sequences(encode_utf8(text));
    if instructions.len() > 0 {
        lemma_frame_writable(text, instructions.drop_last(), config, cols, rows);
        match instructions.last() {
            Draw::StyledData { styled_segments, text_overlays } => {
                lemma_cells_paints_writable(
                    styled_segments@,
                    text_overlays@,
                    ranges,
                    drawn_cells(text),
                );
            },
            Draw::Data => {
                lemma_cells_paints_writable(
                    Seq::empty(),
                    Seq::empty(),
                    ranges,
                    drawn_cells(text),
                );
            },
            Draw::ModeSelectionDialog(modes) => {
                let width = config.mode_switch_width as u16;
                if cols > width {
                    let column = (cols - width) as u16;
                    lemma_dialog_rows_writable(config, modes@, column, rows as nat, sequences);
                    lemma_writable_concat(
                        seq![Paint::DisableLineWrap],
                        dialog_rows(config, modes@, column, rows as nat),
                        sequences,
                    );
                    lemma_writable_concat(
                        seq![Paint::DisableLineWrap] + dialog_rows(
                            config,
                            modes@,
                            column,
                            rows as nat,
                        ),
                        seq![Paint::EnableLineWrap],
                        sequences,
                    );
                }
            },
        }
        lemma_writable_concat(
            instructions_paints(text, instructions.drop_last(), config, cols, rows),
            instruction_paints(text, instructions.last(), config, cols, rows),
            sequences,
        );
    }
    lemma_writable_concat(
        frame_start(),
        instructions_paints(text, instructions, config, cols, rows),
        sequences,
    );
}

/// Adds the step that prints a character as it is.
fn push_print(paints: &mut Vec<Paint>, shown: char)
    ensures
        final(paints)@ == old(paints)@.push(printing(shown)),
{
    paints.push(Paint::Print(shown));
}

/// Adds the steps that print a text.
fn push_text(paints: &mut Vec<Paint>, text: &str)
    ensures
        final(paints)@ == old(paints)@ + prints(text@),
{
    let ghost before = paints@;
    let shown = characters(text);
    let mut i: usize = 0;
    assert(paints@ =~= before + prints(text@.take(0)));
    while i < shown.len()
        invariant
            0 <= i <= shown@.len(),
            shown@ == text@,
            paints@ == before + prints(text@.take(i as int)),
        decreases shown.len() - i,
    {
        proof {
            lemma_prints_push(text@.take(i as int), shown@[i as int]);
            assert(text@.take(i + 1) =~= text@.take(i as int).push(shown@[i as int]));
        }
        push_print(paints, shown[i]);
        assert(paints@ =~= before + prints(text@.take(i + 1)));
        i += 1;
    }
    assert(text@.take(text@.len() as int) =~= text@);
}

/// The struct that composes everything that is rendered to the terminal.
///
/// It knows the size of the screen, which the mode selection dialog is
/// laid out for.
pub struct Renderer {
    /// Number of rows of the screen.
    pub rows: u16,
    /// Number of columns of the screen.
    pub cols: u16,
}

impl Renderer {
    /// Adds the steps that draw the mode selection dialog. The styling of
    /// the dialog is completely controlled by the renderer.
    pub fn draw_mode_selection_dialog(
        &self,
        paints: &mut Vec<Paint>,
        modes: &[(char, String)],
        config: &Config,
    )
        requires
            self.cols < u16::MAX,
        ensures
            final(paints)@ == old(paints)@ + dialog_paints(*config, modes@, self.cols, self.rows),
    {
        let ghost before = paints@;
        let dialog_width = #[verifier::truncate]
        (config.mode_switch_width as u16);
        // If there is not enough space to draw the dialog, just don't
        if self.cols <= dialog_width {
            assert(paints@ =~= before + Seq::<Paint>::empty());
            return ;
        }
        let start_col = self.cols - dialog_width;

        // To make sure that any excess is not going to the new line
        paints.push(Paint::DisableLineWrap);
        let ghost opened = paints@;
        assert(paints@ =~= opened + dialog_rows(*config, modes@, start_col, 0));
        let mut row: u16 = 0;
        while row < self.rows
            invariant
                0 <= row <= self.rows,
                start_col <= self.cols < u16::MAX,
                paints@ == opened + dialog_rows(*config, modes@, start_col, row as nat),
            decreases self.rows - row,
        {
            let ghost above = paints@;
            // Draw the divider and spaces on top of the text underneath
            paints.push(Paint::MoveTo(start_col, row));
            paints.push(Paint::Foreground(config.mode_switch_divider_fg));
            paints.push(Paint::Print('\u{2502}'));
            let mut spaces: usize = 1;
            proof {
                lemma_divider_row(1);
            }
            assert(paints@ =~= above + seq![
                Paint::MoveTo(start_col, row),
                Paint::Foreground(config.mode_switch_divider_fg),
            ] + prints(divider_row(spaces as nat)));
            while spaces < config.mode_switch_width
                invariant
                    1 <= spaces,
                    spaces <= config.mode_switch_width || spaces == 1,
                    paints@ == above + seq![
                        Paint::MoveTo(start_col, row),
                        Paint::Foreground(config.mode_switch_divider_fg),
                    ] + prints(divider_row(spaces as nat)),
                decreases config.mode_switch_width - spaces,
            {
                paints.push(Paint::Print(' '));
                proof {
                    lemma_divider_row(spaces as nat);
                    assert(paints@ =~= above + seq![
                        Paint::MoveTo(start_col, row),
                        Paint::Foreground(config.mode_switch_divider_fg),
                    ] + prints(divider_row((spaces + 1) as nat)));
                }
                spaces += 1;
            }
            let ghost divided = paints@;
            if row >= 1 && (row as usize) <= modes.len() {
                let hotkey = modes[(row - 1) as usize].0;
                let name = &modes[(row - 1) as usize].1;
                paints.push(Paint::MoveTo(start_col + 1, row));
                paints.push(Paint::Foreground(config.mode_switch_hotkey_fg));
                paints.push(Paint::Print(' '));
                paints.push(Paint::Print('['));
                push_print(paints, hotkey);
                paints.push(Paint::Print(']'));
                paints.push(Paint::Print(' '));
                paints.push(Paint::ResetColor);
                paints.push(Paint::Foreground(config.mode_switch_mode_name_fg));
                proof {
                    let label = hotkey_label(hotkey);
                    lemma_hotkey_label(hotkey);
                    assert(paints@ =~= divided + seq![
                        Paint::MoveTo((start_col + 1) as u16, row),
                        Paint::Foreground(config.mode_switch_hotkey_fg),
                    ] + prints(label) + seq![
                        Paint::ResetColor,
                        Paint::Foreground(config.mode_switch_mode_name_fg),
                    ]);
                }
                push_text(paints, name.as_str());
            }
            assert(paints@ =~= above + dialog_row(*config, modes@, start_col, row));
            assert(paints@ =~= opened + dialog_rows(*config, modes@, start_col, (row + 1) as nat));
            row += 1;
        }
        paints.push(Paint::EnableLineWrap);
        assert(paints@ =~= before + dialog_paints(*config, modes@, self.cols, self.rows));
    }

    /// The steps that render the given data and draw instructions.
    ///
    /// Draw instructions are executed in the given order, after the steps
    /// that make the rendering start from a predictable state every time.
    pub fn compose(
        &self,
        data: &str,
        ansi_sequences: &AnsiSequenceExtractor,
        draw_instructions: &[Draw],
        config: &Config,
    ) -> (paints: Vec<Paint>)
        requires
            ansi_sequences.indexes(data@),
            self.cols < u16::MAX,
        ensures
            paints@ == frame_paints(data@, draw_instructions@, *config, self.cols, self.rows),
    {
        let mut paints: Vec<Paint> = Vec::new();
        paints.push(Paint::ResetColor);
        paints.push(Paint::ResetAttributes);
        paints.push(Paint::Clear);
        paints.push(Paint::MoveTo(0, 0));
        paints.push(Paint::EnableLineWrap);
        assert(paints@ =~= frame_start());
        assert(draw_instructions@.take(0) =~= Seq::<Draw>::empty());
        let mut i: usize = 0;
        while i < draw_instructions.len()
            invariant
                0 <= i <= draw_instructions@.len(),
                ansi_sequences.indexes(data@),
                self.cols < u16::MAX,
                paints@ == frame_start() + instructions_paints(
                    data@,
                    draw_instructions@.take(i as int),
                    *config,
                    self.cols,
                    self.rows,
                ),
            decreases draw_instructions.len() - i,
        {
            let ghost before = instructions_paints(
                data@,
                draw_instructions@.take(i as int),
                *config,
                self.cols,
                self.rows,
            );
            let ghost step = instruction_paints(
                data@,
                draw_instructions@[i as int],
                *config,
                self.cols,
                self.rows,
            );
            proof {
                assert(draw_instructions@.take(i + 1).drop_last() =~= draw_instructions@.take(
                    i as int,
                ));
                assert(draw_instructions@.take(i + 1).last() == draw_instructions@[i as int]);
            }
            match &draw_instructions[i] {
                Draw::StyledData { styled_segments, text_overlays } => {
                    draw_styled_data(
                        &mut paints,
                        data,
                        ansi_sequences,
                        styled_segments.as_slice(),
                        text_overlays.as_slice(),
                    );
                },
                Draw::Data => {
                    let no_segments: Vec<StyledSegment> = Vec::new();
                    let no_overlays: Vec<DataOverlay> = Vec::new();
                    draw_styled_data(
                        &mut paints,
                        data,
                        ansi_sequences,
                        no_segments.as_slice(),
                        no_overlays.as_slice(),
                    );
                },
                Draw::ModeSelectionDialog(modes) => {
                    self.draw_mode_selection_dialog(&mut paints, modes.as_slice(), config);
                },
            }
            assert(paints@ =~= frame_start() + (before + step));
            i += 1;
        }
        assert(draw_instructions@.take(draw_instructions@.len() as int) =~= draw_instructions@);
        paints
    }

    /// Writes the steps to a frame: for each step what it is for the
    /// terminal. `ansi_sequences` holds the ANSI sequences that the steps
    /// print again.
    pub fn write(paints: &[Paint], ansi_sequences: &AnsiSequenceExtractor) -> (frame: String)
        requires
            writable(paints@, ansi_sequences.contents().len()),
        ensures
            exists|parts: Seq<Seq<char>>|
                written(frame@, parts, paints@, ansi_sequences.contents()),
    {
        let ghost contents = ansi_sequences.contents();
        let mut frame = String::new();
        let ghost mut parts: Seq<Seq<char>> = Seq::empty();
        let mut i: usize = 0;
        while i < paints.len()
            invariant
                0 <= i <= paints@.len(),
                contents == ansi_sequences.contents(),
                writable(paints@, contents.len()),
                written(frame@, parts, paints@.take(i as int), contents),
            decreases paints.len() - i,
        {
            let ghost before = frame@;
            match paints[i] {
                Paint::ResetAttributes => write_reset_attributes(&mut frame),
                Paint::ResetColor => write_reset_color(&mut frame),
                Paint::Foreground(color) => write_foreground(&mut frame, color),
                Paint::Background(color) => write_background(&mut frame, color),
                Paint::Print(shown) => {
                    frame.push(shown);
                    assert(frame@ =~= before + seq![shown]);
                },
                Paint::Replay(index) => frame.append(ansi_sequences.sequence(index)),
                Paint::Clear => write_clear(&mut frame),
                Paint::MoveTo(column, row) => write_move_to(&mut frame, column, row),
                Paint::EnableLineWrap => write_enable_line_wrap(&mut frame),
                Paint::DisableLineWrap => write_disable_line_wrap(&mut frame),
            }
            proof {
                let part = frame@.skip(before.len() as int);
                let longer = parts.push(part);
                assert(frame@ =~= before + part);
                assert(longer.drop_last() =~= parts);
                assert forall|k: int| 0 <= k < i + 1 implies (paint_code(
                    #[trigger] paints@.take(i + 1)[k],
                    contents,
                ) matches Some(code) ==> longer[k] == code) by {
                    if k < i {
                        assert(paints@.take(i + 1)[k] == paints@.take(i as int)[k]);
                    } else {
                        match paint_code(paints@[i as int], contents) {
                            Some(code) => {
                                assert(part =~= code);
                            },
                            None => {},
                        }
                    }
                }
                parts = longer;
            }
            i += 1;
        }
        assert(paints@.take(paints@.len() as int) =~= paints@);
        frame
    }

    /// Render the given data and draw instructions to a frame.
    ///
    /// Draw instructions are executed in the given order. The frame is
    /// what [`Renderer::compose`] composes, written as [`Renderer::write`]
    /// writes it.
    pub fn render(&self, data: &str, draw_instructions: &[Draw], config: &Config) -> (frame: String)
        requires
            self.cols < u16::MAX - 1,
        ensures
            exists|parts: Seq<Seq<char>>|
                written(
                    frame@,
                    parts,
                    frame_paints(data@, draw_instructions@, *config, self.cols, self.rows),
                    sequence_texts(encode_utf8(data@)),
                ),
    {
        let ansi_sequences = AnsiSequenceExtractor::new(data);
        let paints = self.compose(data, &ansi_sequences, draw_instructions, config);
        proof {
            lemma_frame_writable(data@, draw_instructions@, *config, self.cols, self.rows);
        }
        Renderer::write(paints.as_slice(), &ansi_sequences)
    }
}

} // verus!
