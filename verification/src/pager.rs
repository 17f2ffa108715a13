//! The part of the input that fits on the screen.
use unicode_width::UnicodeWidthStr;
use vstd::prelude::*;
use vstd::string::*;

verus! {

/// The displayed width of a text in columns, as the unicode-width crate
/// counts it.
pub uninterp spec fn text_width(text: Seq<char>) -> usize;

/// `UnicodeWidthStr::width` of the unicode-width crate: the displayed
/// width of the text, which is a matter of its characters alone.
#[verifier::external_body]
fn display_width(text: &str) -> (width: usize)
    ensures
        width == text_width(text@),
{
    text.width()
}

/// What clipping gives when the ends up to `to` have been tried: the rows
/// filled so far are `row`, the current row begins at `start`, and `last`
/// is the end that was tried before `to`.
///
/// An end after which the current row is wider than `row_width` begins
/// the next row at the end before it. The line is cut there when that
/// fills the last of the `rows`.
pub open spec fn clip_from(
    line: Seq<char>,
    rows: int,
    row_width: int,
    to: int,
    start: int,
    last: int,
    row: int,
) -> (Seq<char>, int)
    decreases line.len() + 1 - to,
{
    if to > line.len() {
        (line, row + 1)
    } else if text_width(line.subrange(start, to)) > row_width {
        if row + 1 == rows {
            (line.subrange(0, last), row + 1)
        } else {
            clip_from(line, rows, row_width, to + 1, last, to, row + 1)
        }
    } else {
        clip_from(line, rows, row_width, to + 1, start, to, row)
    }
}

/// The clipped line and the number of rows that it fills.
pub open spec fn clipped(line: Seq<char>, rows: int, row_width: int) -> (Seq<char>, int) {
    clip_from(line, rows, row_width, 0, 0, 0, 0)
}

/// Clip the given line so that it fits into the given numbers of rows of the given width.
/// Note that this takes into account the fact that some characters, e.g. emojis, take up
/// two spaces when rendered.
///
/// Returns a tuple containing the clipped version of the line and the number of rows it
/// fills up.
pub fn clip_line(line: &str, rows: usize, row_width: usize) -> (clip: (String, usize))
    requires
        line@.len() < usize::MAX - 1,
    ensures
        clip.0@ == clipped(line@, rows as int, row_width as int).0,
        clip.1 == clipped(line@, rows as int, row_width as int).1,
{
    let length = line.unicode_len();
    let mut current_row_start: usize = 0;
    let mut last_slice_to: usize = 0;
    let mut current_row_index: usize = 0;
    let mut substring_to: usize = 0;
    while substring_to <= length
        invariant
            length == line@.len() < usize::MAX - 1,
            0 <= current_row_start <= last_slice_to <= substring_to <= length + 1,
            last_slice_to <= length,
            current_row_index <= substring_to,
            clipped(line@, rows as int, row_width as int) == clip_from(
                line@,
                rows as int,
                row_width as int,
                substring_to as int,
                current_row_start as int,
                last_slice_to as int,
                current_row_index as int,
            ),
        decreases length + 1 - substring_to,
    {
        let slice = line.substring_char(current_row_start, substring_to);
        if display_width(slice) > row_width {
            current_row_index += 1;
            current_row_start = last_slice_to;
            if current_row_index == rows {
                let clipped_line = line.substring_char(0, current_row_start);
                return (clipped_line.to_owned(), current_row_index);
            }
        }
        last_slice_to = substring_to;
        substring_to += 1;
    }
    // If we didn't manage to fill up all the given rows, just return the whole string
    // along with the number of rows we did manage to fill up.
    (line.to_owned(), current_row_index + 1)
}

/// The lines joined, with a line feed between every two of them.
pub open spec fn joined_lines(lines: Seq<Seq<char>>) -> Seq<char>
    decreases lines.len(),
{
    if lines.len() == 0 {
        Seq::empty()
    } else if lines.len() == 1 {
        lines[0]
    } else {
        joined_lines(lines.drop_last()) + seq!['\n'] + lines.last()
    }
}

/// The lines of the page when `remaining` rows are left for `lines`.
///
/// Every line is clipped to the rows that are left and takes the rows
/// that it fills. The page ends with the line that fills the last row, or
/// that fills more rows than are left.
pub open spec fn page_lines(lines: Seq<Seq<char>>, remaining: int, cols: int) -> Seq<Seq<char>>
    decreases lines.len(),
{
    if lines.len() == 0 {
        Seq::empty()
    } else {
        let clip = clipped(lines[0], remaining, cols);
        if clip.1 < remaining {
            seq![clip.0] + page_lines(lines.drop_first(), remaining - clip.1, cols)
        } else {
            seq![clip.0]
        }
    }
}

/// Get the largest part of the lines that can be rendered in the space of
/// the given size, as one text.
pub fn get_page(source: &[String], rows: usize, cols: usize) -> (page: String)
    requires
        forall|i: int| 0 <= i < source@.len() ==> (#[trigger] source@[i])@.len() < usize::MAX - 1,
    ensures
        page@ == joined_lines(page_lines(source.deep_view(), rows as int, cols as int)),
{
    let ghost lines = source.deep_view();
    let mut page = String::new();
    let ghost mut output_lines: Seq<Seq<char>> = Seq::empty();
    let mut output_rows_remaining = rows;
    let mut i: usize = 0;
    assert(lines.skip(0) =~= lines);
    assert(output_lines + page_lines(lines, rows as int, cols as int) =~= page_lines(
        lines,
        rows as int,
        cols as int,
    ));
    while i < source.len()
        invariant
            0 <= i <= source@.len(),
            lines == source.deep_view(),
            forall|k: int|
                0 <= k < source@.len() ==> (#[trigger] source@[k])@.len() < usize::MAX - 1,
            page@ == joined_lines(output_lines),
            output_lines.len() == i,
            output_lines + page_lines(
                lines.skip(i as int),
                output_rows_remaining as int,
                cols as int,
            ) == page_lines(lines, rows as int, cols as int),
        decreases source.len() - i,
    {
        let ghost rest = lines.skip(i as int);
        let ghost before = page@;
        proof {
            assert(rest[0] == source@[i as int]@);
            assert(rest.drop_first() =~= lines.skip(i + 1));
        }
        let (line_clipped, line_rows) = clip_line(
            source[i].as_str(),
            output_rows_remaining,
            cols,
        );
        if i > 0 {
            page.push('\n');
        }
        page.append(line_clipped.as_str());
        proof {
            let longer = output_lines.push(line_clipped@);
            assert(longer.drop_last() =~= output_lines);
            if i > 0 {
                assert(page@ =~= before + seq!['\n'] + line_clipped@);
            } else {
                assert(page@ =~= line_clipped@);
            }
            assert(page@ == joined_lines(longer));
            output_lines = longer;
        }
        if line_rows < output_rows_remaining {
            proof {
                assert(output_lines + page_lines(
                    lines.skip(i + 1),
                    output_rows_remaining - line_rows,
                    cols as int,
                ) =~= page_lines(lines, rows as int, cols as int));
            }
            output_rows_remaining -= line_rows;
        } else {
            assert(output_lines =~= page_lines(lines, rows as int, cols as int));
            return page;
        }
        i += 1;
    }
    proof {
        assert(lines.skip(lines.len() as int) =~= Seq::<Seq<char>>::empty());
        assert(output_lines =~= page_lines(lines, rows as int, cols as int));
    }
    page
}

} // verus!
