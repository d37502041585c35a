//! What typing makes of a selection, and where copies of it can go.

use std::ops::Range;

use vstd::prelude::*;

use crate::buffer::{self, Buffer};
use crate::movement;
use crate::point::Point;
use crate::strings;
use crate::text;

verus! {

/// How many bytes of UTF-8 a character takes.
pub open spec fn char_bytes(c: char) -> nat {
    let code = c as int;
    if code < 0x80 {
        1
    } else if code < 0x800 {
        2
    } else if code < 0x10000 {
        3
    } else {
        4
    }
}

/// How many newlines there are among characters.
pub open spec fn newlines(chars: Seq<char>) -> nat
    decreases chars.len(),
{
    if chars.len() == 0 {
        0
    } else {
        newlines(chars.drop_last()) + if chars.last() == '\n' { 1nat } else { 0nat }
    }
}

/// How many bytes of UTF-8 follow the last newline among characters.
pub open spec fn last_line_bytes(chars: Seq<char>) -> nat
    decreases chars.len(),
{
    if chars.len() == 0 || chars.last() == '\n' {
        0
    } else {
        last_line_bytes(chars.drop_last()) + char_bytes(chars.last())
    }
}

/// What is typed in two parts has the newlines of both; and its last line is that of the
/// second part where that has a newline, and else goes on from the first part.
pub proof fn law_measures_add(first: Seq<char>, second: Seq<char>)
    ensures
        newlines(first + second) == newlines(first) + newlines(second),
        !second.contains('\n') ==> last_line_bytes(first + second) == last_line_bytes(first)
            + last_line_bytes(second),
        second.contains('\n') ==> last_line_bytes(first + second) == last_line_bytes(second),
    decreases second.len(),
{
    if second.len() == 0 {
        assert(first + second =~= first);
    } else {
        let shorter = second.drop_last();
        assert((first + second).drop_last() =~= first + shorter);
        law_measures_add(first, shorter);
        assert(second[second.len() - 1] == second.last());
        if shorter.contains('\n') {
            let i = choose|i: int| 0 <= i < shorter.len() && shorter[i] == '\n';
            assert(second[i] == '\n');
        }
        if second.contains('\n') && second.last() != '\n' {
            let i = choose|i: int| 0 <= i < second.len() && second[i] == '\n';
            assert(shorter[i] == '\n');
        }
    }
}

proof fn lemma_encoded_push(chars: Seq<char>, c: char)
    ensures
        vstd::utf8::encode_utf8(chars.push(c)) == vstd::utf8::encode_utf8(chars)
            + vstd::utf8::encode_scalar(c as u32),
        vstd::utf8::encode_scalar(c as u32).len() == char_bytes(c),
    decreases chars.len(),
{
    let more = chars.push(c);
    if chars.len() == 0 {
        assert(more.drop_first() =~= chars);
        assert(vstd::utf8::encode_utf8(more) =~= vstd::utf8::encode_utf8(chars)
            + vstd::utf8::encode_scalar(c as u32));
    } else {
        assert(more.drop_first() =~= chars.drop_first().push(c));
        lemma_encoded_push(chars.drop_first(), c);
        assert(vstd::utf8::encode_utf8(more) =~= vstd::utf8::encode_utf8(chars)
            + vstd::utf8::encode_scalar(c as u32));
    }
}

/// As many newlines are counted as there are, and as many bytes of the last line as UTF-8
/// has for what stands behind the last newline.
pub proof fn law_measures_count(chars: Seq<char>, last: Seq<char>)
    requires
        !last.contains('\n'),
        chars == last || exists|before: Seq<char>| chars == #[trigger] before.push('\n') + last,
    ensures
        newlines(chars) == chars.filter(|c: char| c == '\n').len(),
        last_line_bytes(chars) == vstd::utf8::encode_utf8(last).len(),
{
    lemma_newlines(chars);
    lemma_line_bytes(last);
    if chars != last {
        let before = choose|before: Seq<char>| chars == #[trigger] before.push('\n') + last;
        law_measures_add(before.push('\n'), last);
    }
}

proof fn lemma_newlines(chars: Seq<char>)
    ensures
        newlines(chars) == chars.filter(|c: char| c == '\n').len(),
    decreases chars.len(),
{
    reveal(Seq::filter);
    if chars.len() > 0 {
        lemma_newlines(chars.drop_last());
    }
}

proof fn lemma_line_bytes(line: Seq<char>)
    requires
        !line.contains('\n'),
    ensures
        last_line_bytes(line) == vstd::utf8::encode_utf8(line).len(),
    decreases line.len(),
{
    if line.len() > 0 {
        let shorter = line.drop_last();
        assert(line[line.len() - 1] == line.last());
        assert(!shorter.contains('\n')) by {
            if shorter.contains('\n') {
                let i = choose|i: int| 0 <= i < shorter.len() && shorter[i] == '\n';
                assert(line[i] == '\n');
            }
        }
        lemma_line_bytes(shorter);
        lemma_encoded_push(shorter, line.last());
        assert(shorter.push(line.last()) =~= line);
    }
}

/// A selection with its ends in reading order.
pub open spec fn ordered(selection: Range<Point>) -> Range<Point> {
    if selection.end.before(selection.start) {
        Range { start: selection.end, end: selection.start }
    } else {
        selection
    }
}

/// Where a cursor goes when characters are typed at a point: as many rows down
/// as there are newlines, and as many columns on as the last line has bytes.
pub open spec fn typed(point: Point, chars: Seq<char>) -> Point {
    Point {
        row: (point.row + newlines(chars)) as u32,
        column: (point.column + last_line_bytes(chars)) as u32,
    }
}

/// The columns that a copy of a selection takes in another row.
pub open spec fn copied(text: Seq<u16>, selection: Range<Point>, row: int) -> Range<Point> {
    Range {
        start: Point {
            row: row as u32,
            column: movement::column_in_row(
                text,
                row,
                if selection.start == selection.end {
                    selection.end.column
                } else {
                    selection.start.column
                },
            ),
        },
        end: Point {
            row: row as u32,
            column: movement::column_in_row(text, row, selection.end.column),
        },
    }
}

/// Whether a row has room for a copy of a selection: for a cursor, a column other
/// than the first unless the cursor is in the first; for a selection, something to
/// select.
pub open spec fn has_room(text: Seq<u16>, selection: Range<Point>, row: int) -> bool {
    let copy = copied(text, selection, row);
    if selection.start == selection.end {
        selection.end.column == 0 || copy.end.column > 0
    } else {
        copy.start.column != copy.end.column
    }
}

/// The nearest row before a row that has room for a copy of a selection.
pub open spec fn room_above(text: Seq<u16>, selection: Range<Point>, row: int) -> Option<int>
    decreases row,
{
    if row <= 0 {
        None
    } else if has_room(text, selection, row - 1) {
        Some(row - 1)
    } else {
        room_above(text, selection, row - 1)
    }
}

/// The nearest row after a row that has room for a copy of a selection.
pub open spec fn room_below(text: Seq<u16>, selection: Range<Point>, row: int) -> Option<int>
    decreases text::rows(text).len() - row,
{
    if row >= text::rows(text).len() - 1 {
        None
    } else if has_room(text, selection, row + 1) {
        Some(row + 1)
    } else {
        room_below(text, selection, row + 1)
    }
}

/// A selection and its copy in a row. Nothing is left of a selection that has no
/// row for its copy.
pub open spec fn with_copy(
    text: Seq<u16>,
    selection: Range<Point>,
    row: Option<int>,
) -> Seq<Range<Point>> {
    match row {
        Some(row) => seq![selection, copied(text, selection, row)],
        None => Seq::empty(),
    }
}

/// The selections with the copies that are added above them. Nothing is left of a
/// selection over several rows.
pub open spec fn with_copies_above(
    text: Seq<u16>,
    selections: Seq<Range<Point>>,
) -> Seq<Range<Point>>
    decreases selections.len(),
{
    if selections.len() == 0 {
        Seq::empty()
    } else {
        let last = selections.last();
        with_copies_above(text, selections.drop_last()) + if last.start.row == last.end.row {
            with_copy(text, last, room_above(text, last, last.start.row as int))
        } else {
            Seq::empty()
        }
    }
}

/// The selections with the copies that are added below them. Nothing is left of a
/// selection over several rows.
pub open spec fn with_copies_below(
    text: Seq<u16>,
    selections: Seq<Range<Point>>,
) -> Seq<Range<Point>>
    decreases selections.len(),
{
    if selections.len() == 0 {
        Seq::empty()
    } else {
        let last = selections.last();
        with_copies_below(text, selections.drop_last()) + if last.start.row == last.end.row {
            with_copy(text, last, room_below(text, last, last.start.row as int))
        } else {
            Seq::empty()
        }
    }
}

/// A row that has room for a copy is a row of the text.
proof fn lemma_room_above(text: Seq<u16>, selection: Range<Point>, row: int)
    requires
        0 <= row,
    ensures
        room_above(text, selection, row) matches Some(found) ==> 0 <= found < row,
    decreases row,
{
    if row > 0 {
        lemma_room_above(text, selection, row - 1);
    }
}

/// A row that has room for a copy is a row of the text.
proof fn lemma_room_below(text: Seq<u16>, selection: Range<Point>, row: int)
    ensures
        room_below(text, selection, row) matches Some(found) ==> row < found
            < text::rows(text).len(),
    decreases text::rows(text).len() - row,
{
    if row < text::rows(text).len() - 1 {
        lemma_room_below(text, selection, row + 1);
    }
}

/// The copies that are added to selections in the text lie in the text.
pub proof fn law_copies_lie_in_text(text: Seq<u16>, selections: Seq<Range<Point>>)
    requires
        text::fits(text),
        buffer::in_text(text, selections),
    ensures
        buffer::in_text(text, with_copies_above(text, selections)),
        buffer::in_text(text, with_copies_below(text, selections)),
    decreases selections.len(),
{
    if selections.len() > 0 {
        let last = selections.last();
        let row = last.start.row as int;
        law_copies_lie_in_text(text, selections.drop_last());
        assert(selections[selections.len() - 1] == last);
        lemma_room_above(text, last, row);
        lemma_room_below(text, last, row);
        text::lemma_rows_len(text);
        assert forall|other: int| 0 <= other < text::rows(text).len() implies buffer::in_text(
            text,
            seq![last, #[trigger] copied(text, last, other)],
        ) by {
            text::lemma_row_in_text(text, other);
        }
    }
}

/// How many bytes of UTF-8 a character takes.
fn count_bytes(c: char) -> (bytes: u128)
    ensures
        bytes == char_bytes(c),
{
    let code: u32 = c as u32;
    if code < 0x80 {
        1
    } else if code < 0x800 {
        2
    } else if code < 0x10000 {
        3
    } else {
        4
    }
}

/// How many newlines a string has, and how many bytes follow the last.
pub(crate) fn measure(string: &str) -> (measures: (usize, u128))
    ensures
        measures.0 == newlines(string@),
        measures.1 == last_line_bytes(string@),
{
    let chars = strings::chars_of(string);
    let mut rows: usize = 0;
    let mut bytes: u128 = 0;
    let mut i: usize = 0;
    while i < chars.len()
        invariant
            i <= chars.len(),
            rows == newlines(chars@.take(i as int)),
            bytes == last_line_bytes(chars@.take(i as int)),
            rows <= i,
            bytes <= 4 * i,
        decreases chars.len() - i,
    {
        proof {
            assert(chars@.take(i + 1).drop_last() =~= chars@.take(i as int));
        }
        if chars[i] == '\n' {
            rows += 1;
            bytes = 0;
        } else {
            bytes += count_bytes(chars[i]);
        }
        i += 1;
    }
    assert(chars@.take(i as int) =~= chars@);
    (rows, bytes)
}

/// The copy of a selection in another row, where that has room for it.
pub(crate) fn copy_in_row(buffer: &Buffer, selection: &Range<Point>, row: u32) -> (copy: Option<Range<Point>>)
    requires
        buffer.wf(),
        row < text::rows(buffer@.text).len(),
    ensures
        copy == (if has_room(buffer@.text, *selection, row as int) {
            Some(copied(buffer@.text, *selection, row as int))
        } else {
            None
        }),
{
    let max_column: u32 = buffer.len_for_row(row).unwrap();
    let goal_column = selection.end.column;
    let end_column: u32 = if goal_column < max_column {
        goal_column
    } else {
        max_column
    };
    let start_column: u32;
    let add_selection: bool;
    if selection.start == selection.end {
        start_column = end_column;
        add_selection = selection.end.column == 0 || end_column > 0;
    } else {
        start_column = if selection.start.column < max_column {
            selection.start.column
        } else {
            max_column
        };
        add_selection = start_column != end_column;
    }
    if add_selection {
        Some(Point::new(row, start_column)..Point::new(row, end_column))
    } else {
        None
    }
}

} // verus!
