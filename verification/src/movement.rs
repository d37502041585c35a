//! Where a cursor goes.

use vstd::prelude::*;

use crate::buffer::Buffer;
use crate::error::{Error, MemoError};
use crate::point::Point;
use crate::text;
use crate::utf16;

verus! {

/// One code unit back, and from the start of a row to the end of the row before
/// it. The start of the text has nothing before it. No place is left of a row
/// that comes more than one row after the last.
pub open spec fn left_of(text: Seq<u16>, point: Point) -> Option<Point> {
    if point.column > 0 {
        Some(Point { row: point.row, column: (point.column - 1) as u32 })
    } else if point.row == 0 {
        Some(point)
    } else if point.row - 1 < text::rows(text).len() {
        Some(
            Point {
                row: (point.row - 1) as u32,
                column: text::rows(text)[point.row - 1].len() as u32,
            },
        )
    } else {
        None
    }
}

/// One code unit on, and from the end of a row to the start of the row after it.
/// The end of the text has nothing after it. No place is right of a row that the
/// text does not have.
pub open spec fn right_of(text: Seq<u16>, point: Point) -> Option<Point> {
    if point.row >= text::rows(text).len() {
        None
    } else if point.column < text::rows(text)[point.row as int].len() {
        Some(Point { row: point.row, column: (point.column + 1) as u32 })
    } else if point.row < text::rows(text).len() - 1 {
        Some(Point { row: (point.row + 1) as u32, column: 0 })
    } else {
        Some(point)
    }
}

/// A number of steps back.
pub open spec fn left_times(text: Seq<u16>, point: Point, steps: nat) -> Option<Point>
    decreases steps,
{
    if steps == 0 {
        Some(point)
    } else {
        match left_times(text, point, (steps - 1) as nat) {
            Some(reached) => left_of(text, reached),
            None => None,
        }
    }
}

/// A number of steps on.
pub open spec fn right_times(text: Seq<u16>, point: Point, steps: nat) -> Option<Point>
    decreases steps,
{
    if steps == 0 {
        Some(point)
    } else {
        match right_times(text, point, (steps - 1) as nat) {
            Some(reached) => right_of(text, reached),
            None => None,
        }
    }
}

/// The column to make for: the goal, or the column of the point where there is
/// none.
pub open spec fn goal(point: Point, goal_column: Option<u32>) -> u32 {
    match goal_column {
        Some(column) => column,
        None => point.column,
    }
}

/// A column of a row, or the end of the row where that comes first.
pub open spec fn column_in_row(text: Seq<u16>, row: int, column: u32) -> u32 {
    if column < text::rows(text)[row].len() {
        column
    } else {
        text::rows(text)[row].len() as u32
    }
}

/// The same column one row up, and the start of the text from its first row.
pub open spec fn above(text: Seq<u16>, point: Point, goal_column: Option<u32>) -> Option<Point> {
    if point.row == 0 {
        Some(Point { row: 0, column: 0 })
    } else if point.row - 1 < text::rows(text).len() {
        Some(
            Point {
                row: (point.row - 1) as u32,
                column: column_in_row(text, point.row - 1, goal(point, goal_column)),
            },
        )
    } else {
        None
    }
}

/// The same column one row down, and the end of the text from its last row.
pub open spec fn below(text: Seq<u16>, point: Point, goal_column: Option<u32>) -> Point {
    if point.row < text::rows(text).len() - 1 {
        Point {
            row: (point.row + 1) as u32,
            column: column_in_row(text, point.row + 1, goal(point, goal_column)),
        }
    } else {
        text::end_point(text)
    }
}

/// What a function that can leave the rows of the text gives for a place.
pub open spec fn reached(place: Option<Point>) -> Result<Point, Error> {
    match place {
        Some(point) => Ok(point),
        None => Err(Error::Memo(MemoError::OffsetOutOfRange)),
    }
}

/// What `char::is_alphanumeric` says of a character.
pub uninterp spec fn alphanumeric(c: char) -> bool;

/// `char::is_alphanumeric`: whether Unicode counts a character among the letters
/// and numbers, which depends on the character alone.
pub assume_specification[ char::is_alphanumeric ](c: char) -> (result: bool)
    ensures
        result == alphanumeric(c),
;

/// Which of a sequence of characters are letters or numbers.
pub open spec fn classes(chars: Seq<Option<char>>) -> Seq<bool> {
    chars.map_values(|c: Option<char>| c is Some && alphanumeric(c->0))
}

/// How many entries in a row, from one of them on, are the same as `class`.
pub open spec fn run_len(classes: Seq<bool>, from: int, class: bool) -> nat
    decreases classes.len() - from,
{
    if 0 <= from < classes.len() && classes[from] == class {
        1 + run_len(classes, from + 1, class)
    } else {
        0
    }
}

/// How many steps a word takes: one for its first character, and one for each
/// that follows and is of the same class. Where there is no character, one step
/// is tried all the same.
pub open spec fn word_len(classes: Seq<bool>) -> nat {
    if classes.len() == 0 {
        1
    } else {
        1 + run_len(classes, 1, classes[0])
    }
}

/// Whether the characters of a word, and the one that ends it, can all be read:
/// none of them is a surrogate outside of a pair.
pub open spec fn reads_word(chars: Seq<Option<char>>) -> bool {
    forall|i: int|
        0 <= i < chars.len() && i <= word_len(classes(chars)) ==> #[trigger] chars[i] is Some
}

/// What can be read from a point on.
pub open spec fn chars_after(text: Seq<u16>, point: Point) -> Seq<Option<char>> {
    utf16::spelled(text.skip(text::offset_of(text, point)))
}

/// What can be read from a point back, code unit by code unit.
pub open spec fn chars_before(text: Seq<u16>, point: Point) -> Seq<Option<char>> {
    utf16::spelled(text.take(text::offset_of(text, point)).reverse())
}

pub open spec fn word_start(text: Seq<u16>, point: Point) -> Option<Point> {
    left_times(text, point, word_len(classes(chars_before(text, point))))
}

pub open spec fn word_end(text: Seq<u16>, point: Point) -> Option<Point> {
    right_times(text, point, word_len(classes(chars_after(text, point))))
}

/// From a position in the text, a step left leads to the position one code unit
/// before it, and stays at the start of the text.
pub proof fn law_left(text: Seq<u16>, point: Point)
    requires
        text::fits(text),
        text::is_position(text, point),
    ensures
        left_of(text, point) is Some,
        text::is_position(text, left_of(text, point)->0),
        text::offset_of(text, left_of(text, point)->0) == if text::offset_of(text, point) > 0 {
            text::offset_of(text, point) - 1
        } else {
            0
        },
{
    if point.row > 0 {
        text::lemma_row_in_text(text, point.row - 1);
        text::lemma_row_starts_ordered(text, point.row - 1, point.row as int);
    }
    text::lemma_row_in_text(text, point.row as int);
}

/// From a position in the text, a step right leads to the position one code unit
/// after it, and stays at the end of the text.
pub proof fn law_right(text: Seq<u16>, point: Point)
    requires
        text::fits(text),
        text::is_position(text, point),
    ensures
        right_of(text, point) is Some,
        text::is_position(text, right_of(text, point)->0),
        text::offset_of(text, right_of(text, point)->0) == if text::offset_of(text, point)
            < text.len() {
            text::offset_of(text, point) + 1
        } else {
            text.len() as int
        },
{
    text::lemma_rows_len(text);
    text::lemma_row_in_text(text, point.row as int);
    if point.row < text::rows(text).len() - 1 {
        text::lemma_row_in_text(text, point.row + 1);
    }
}

/// A step right undoes a step left, except at the start of the text.
pub proof fn law_right_undoes_left(text: Seq<u16>, point: Point)
    requires
        text::fits(text),
        text::is_position(text, point),
        point != (Point { row: 0, column: 0 }),
    ensures
        right_of(text, left_of(text, point)->0) == Some(point),
{
    law_left(text, point);
    let before = left_of(text, point)->0;
    law_right(text, before);
    text::lemma_offsets_ordered(text, Point { row: 0, column: 0 }, point);
    text::lemma_offset_in_text(text, point);
    text::lemma_offsets_ordered(text, right_of(text, before)->0, point);
}

/// A step left undoes a step right, except at the end of the text.
pub proof fn law_left_undoes_right(text: Seq<u16>, point: Point)
    requires
        text::fits(text),
        text::is_position(text, point),
        point != text::end_point(text),
    ensures
        left_of(text, right_of(text, point)->0) == Some(point),
{
    law_right(text, point);
    let after = right_of(text, point)->0;
    law_left(text, after);
    text::lemma_rows_len(text);
    text::lemma_offset_in_text(text, point);
    text::lemma_offsets_ordered(text, text::end_point(text), point);
    text::lemma_offsets_ordered(text, left_of(text, after)->0, point);
}

/// From a position in the text, steps left lead to positions in it.
pub proof fn law_left_times(text: Seq<u16>, point: Point, steps: nat)
    requires
        text::fits(text),
        text::is_position(text, point),
    ensures
        left_times(text, point, steps) is Some,
        text::is_position(text, left_times(text, point, steps)->0),
        text::offset_of(text, left_times(text, point, steps)->0) == if text::offset_of(text, point)
            > steps {
            text::offset_of(text, point) - steps
        } else {
            0
        },
    decreases steps,
{
    text::lemma_offset_in_text(text, point);
    if steps > 0 {
        law_left_times(text, point, (steps - 1) as nat);
        law_left(text, left_times(text, point, (steps - 1) as nat)->0);
    }
}

/// From a position in the text, steps right lead to positions in it.
pub proof fn law_right_times(text: Seq<u16>, point: Point, steps: nat)
    requires
        text::fits(text),
        text::is_position(text, point),
    ensures
        right_times(text, point, steps) is Some,
        text::is_position(text, right_times(text, point, steps)->0),
        text::offset_of(text, right_times(text, point, steps)->0) == if text::offset_of(
            text,
            point,
        ) + steps < text.len() {
            text::offset_of(text, point) + steps
        } else {
            text.len() as int
        },
    decreases steps,
{
    text::lemma_offset_in_text(text, point);
    if steps > 0 {
        law_right_times(text, point, (steps - 1) as nat);
        law_right(text, right_times(text, point, (steps - 1) as nat)->0);
    }
}

/// From a position in the text, a step up or down leads to a position in it.
pub proof fn law_up_and_down(text: Seq<u16>, point: Point, goal_column: Option<u32>)
    requires
        text::fits(text),
        text::is_position(text, point),
    ensures
        above(text, point, goal_column) is Some,
        text::is_position(text, above(text, point, goal_column)->0),
        text::is_position(text, below(text, point, goal_column)),
{
    text::lemma_rows_len(text);
    text::lemma_row_in_text(text, text::rows(text).len() - 1);
    if point.row > 0 {
        text::lemma_row_in_text(text, point.row - 1);
    }
    if point.row < text::rows(text).len() - 1 {
        text::lemma_row_in_text(text, point.row + 1);
    }
}

/// The start of a word is not behind a position in it, and its end not before.
pub proof fn law_word_is_around(text: Seq<u16>, point: Point)
    requires
        text::fits(text),
        text::is_position(text, point),
    ensures
        word_start(text, point) is Some,
        word_end(text, point) is Some,
        text::is_position(text, word_start(text, point)->0),
        text::is_position(text, word_end(text, point)->0),
        !point.before(word_start(text, point)->0),
        !(word_end(text, point)->0).before(point),
{
    law_left_times(text, point, word_len(classes(chars_before(text, point))));
    law_right_times(text, point, word_len(classes(chars_after(text, point))));
    text::lemma_offset_in_text(text, point);
    text::lemma_offsets_ordered(text, point, word_start(text, point)->0);
    text::lemma_offsets_ordered(text, word_end(text, point)->0, point);
}

/// From a row that is not the last, a step down leads one row down: to the column that
/// is made for where that row is long enough, and else to the end of that row.
pub proof fn law_down(text: Seq<u16>, point: Point, goal_column: Option<u32>)
    requires
        text::fits(text),
        point.row + 1 < text::rows(text).len(),
    ensures
        ({
            let reached = below(text, point, goal_column);
            let wanted = if goal_column is Some { goal_column->0 } else { point.column };
            let len = text::rows(text)[point.row + 1].len();
            &&& reached.row == point.row + 1
            &&& wanted <= len ==> reached.column == wanted
            &&& wanted > len ==> reached.column == len
        }),
{
    text::lemma_row_in_text(text, point.row + 1);
    text::lemma_rows_len(text);
}

/// From a row that is not the first, a step up leads one row up: to the column that is
/// made for where that row is long enough, and else to the end of that row.
pub proof fn law_up(text: Seq<u16>, point: Point, goal_column: Option<u32>)
    requires
        text::fits(text),
        0 < point.row <= text::rows(text).len(),
    ensures
        above(text, point, goal_column) matches Some(reached) && {
            let wanted = if goal_column is Some { goal_column->0 } else { point.column };
            let len = text::rows(text)[point.row - 1].len();
            &&& reached.row == point.row - 1
            &&& wanted <= len ==> reached.column == wanted
            &&& wanted > len ==> reached.column == len
        },
{
    text::lemma_row_in_text(text, point.row - 1);
    text::lemma_rows_len(text);
}

/// A step up from the first row leads to the start of the text, and a step down from the
/// last row, or from behind it, to its end. There is no step up from further behind the
/// last row than one row.
pub proof fn law_up_and_down_end(text: Seq<u16>, point: Point, goal_column: Option<u32>)
    requires
        text::fits(text),
    ensures
        above(text, point, goal_column) is None <==> point.row > text::rows(text).len(),
        point.row == 0 ==> (above(text, point, goal_column) matches Some(reached)
            && text::is_position(text, reached) && text::offset_of(text, reached) == 0),
        point.row >= text::rows(text).len() - 1 ==> text::is_position(
            text,
            below(text, point, goal_column),
        ) && text::offset_of(text, below(text, point, goal_column)) == text.len(),
{
    text::lemma_rows_len(text);
    text::lemma_row_in_text(text, text::rows(text).len() - 1);
}

/// Steps left and right from a point that is no position: a step left goes one column
/// back, or to the end of the row before; a step right from behind the end of a row goes
/// to the start of the next, and stays where there is none. There is no step from a row
/// that is too far behind the last.
pub proof fn law_steps_from_no_position(text: Seq<u16>, point: Point)
    requires
        text::fits(text),
        !text::is_position(text, point),
    ensures
        point.column > 0 ==> (left_of(text, point) matches Some(reached) && reached.row
            == point.row && reached.column == point.column - 1),
        point.column == 0 && point.row == text::rows(text).len() ==> (left_of(
            text,
            point,
        ) matches Some(reached) && text::is_position(text, reached) && text::offset_of(
            text,
            reached,
        ) == text.len()),
        point.column == 0 && point.row > text::rows(text).len() ==> left_of(text, point) is None,
        point.row >= text::rows(text).len() ==> right_of(text, point) is None,
        point.row < text::rows(text).len() - 1 ==> (right_of(text, point) matches Some(reached)
            && reached.row == point.row + 1 && reached.column == 0),
        point.row == text::rows(text).len() - 1 ==> right_of(text, point) == Some(point),
{
    text::lemma_rows_len(text);
    text::lemma_row_in_text(text, text::rows(text).len() - 1);
}

/// A step up undoes a step down, and the other way round, where the column of the point
/// is made for again or the row in between has that column.
pub proof fn law_up_undoes_down(text: Seq<u16>, point: Point)
    requires
        text::fits(text),
        text::is_position(text, point),
    ensures
        point.row + 1 < text::rows(text).len() ==> {
            let under = below(text, point, None);
            &&& above(text, under, Some(point.column)) == Some(point)
            &&& point.column <= text::rows(text)[point.row + 1].len() ==> above(text, under, None)
                == Some(point)
        },
        point.row > 0 ==> {
            let over = above(text, point, None)->0;
            &&& below(text, over, Some(point.column)) == point
            &&& point.column <= text::rows(text)[point.row - 1].len() ==> below(text, over, None)
                == point
        },
{
    text::lemma_rows_len(text);
    if point.row + 1 < text::rows(text).len() {
        law_down(text, point, None);
        text::lemma_row_in_text(text, point.row + 1);
    }
    if point.row > 0 {
        law_up(text, point, None);
        text::lemma_row_in_text(text, point.row - 1);
    }
}

/// Whether every code unit of a text is a character.
pub open spec fn is_plain(text: Seq<u16>) -> bool {
    forall|i: int| 0 <= i < text.len() ==> !(0xD800 <= #[trigger] text[i] < 0xE000)
}

/// Whether two code units of a text are both letters or numbers, or both none.
pub open spec fn of_one_class(text: Seq<u16>, i: int, j: int) -> bool {
    alphanumeric(text[i] as char) == alphanumeric(text[j] as char)
}

proof fn lemma_plain_is_spelled(units: Seq<u16>)
    requires
        is_plain(units),
    ensures
        utf16::spelled(units).len() == units.len(),
        forall|i: int|
            0 <= i < units.len() ==> #[trigger] utf16::spelled(units)[i] == Some(units[i] as char),
    decreases units.len(),
{
    if units.len() > 0 {
        let rest = units.skip(1);
        assert(!(0xD800 <= units[0] < 0xE000));
        assert forall|i: int| 0 <= i < rest.len() implies !(0xD800 <= #[trigger] rest[i]
            < 0xE000) by {
            assert(!(0xD800 <= units[i + 1] < 0xE000));
        }
        lemma_plain_is_spelled(rest);
        assert forall|i: int| 0 <= i < units.len() implies #[trigger] utf16::spelled(units)[i]
            == Some(units[i] as char) by {
            if i > 0 {
                assert(utf16::spelled(rest)[i - 1] == Some(rest[i - 1] as char));
            }
        }
    }
}

/// A text of characters of one code unit each can be read from everywhere, both ways.
pub proof fn lemma_plain_is_read(text: Seq<u16>, point: Point)
    requires
        is_plain(text),
    ensures
        reads_word(chars_before(text, point)),
        reads_word(chars_after(text, point)),
{
    let offset = text::offset_of(text, point);
    text::lemma_offset_in_text(text, point);
    let before = text.take(offset).reverse();
    let after = text.skip(offset);
    assert forall|i: int| 0 <= i < before.len() implies !(0xD800 <= #[trigger] before[i]
        < 0xE000) by {
        assert(before[i] == text[offset - 1 - i]);
    }
    assert forall|i: int| 0 <= i < after.len() implies !(0xD800 <= #[trigger] after[i]
        < 0xE000) by {
        assert(after[i] == text[offset + i]);
    }
    lemma_plain_is_spelled(before);
    lemma_plain_is_spelled(after);
}

/// A run is as long as it can be.
proof fn lemma_run_len(classes: Seq<bool>, from: int, class: bool)
    requires
        0 <= from <= classes.len(),
    ensures
        from + run_len(classes, from, class) <= classes.len(),
        forall|i: int|
            from <= i < from + run_len(classes, from, class) ==> #[trigger] classes[i] == class,
        from + run_len(classes, from, class) < classes.len() ==> classes[from + run_len(
            classes,
            from,
            class,
        )] != class,
    decreases classes.len() - from,
{
    if from < classes.len() && classes[from] == class {
        lemma_run_len(classes, from + 1, class);
    }
}

/// The end of the word after a position: what lies between is all letters and numbers,
/// or none of it is; and it reaches as far as that holds.
pub proof fn law_word_end(text: Seq<u16>, point: Point)
    requires
        text::fits(text),
        text::is_position(text, point),
        is_plain(text),
    ensures
        word_end(text, point) matches Some(reached) && {
            let from = text::offset_of(text, point);
            let to = text::offset_of(text, reached);
            &&& text::is_position(text, reached)
            &&& from < text.len() ==> from < to
            &&& from == text.len() ==> to == from
            &&& forall|i: int| from <= i < to ==> #[trigger] of_one_class(text, i, from)
            &&& from < to < text.len() ==> !of_one_class(text, to, from)
        },
{
    let from = text::offset_of(text, point);
    text::lemma_offset_in_text(text, point);
    let ahead = text.skip(from);
    assert(is_plain(ahead)) by {
        assert forall|i: int| 0 <= i < ahead.len() implies !(0xD800 <= #[trigger] ahead[i]
            < 0xE000) by {
            assert(!(0xD800 <= text[from + i] < 0xE000));
        }
    }
    lemma_plain_is_spelled(ahead);
    let chars = chars_after(text, point);
    let kinds = classes(chars);
    let steps = word_len(kinds);
    law_right_times(text, point, steps);
    let to = text::offset_of(text, word_end(text, point)->0);
    if ahead.len() > 0 {
        lemma_run_len(kinds, 1, kinds[0]);
        assert forall|i: int| 0 <= i < ahead.len() implies #[trigger] kinds[i] == alphanumeric(
            text[from + i] as char,
        ) by {
            assert(chars[i] == Some(ahead[i] as char));
        }
        assert forall|i: int| from <= i < to implies #[trigger] of_one_class(text, i, from) by {
            assert(kinds[i - from] == kinds[0]);
        }
        if to < text.len() {
            assert(kinds[to - from] != kinds[0]);
        }
    }
}

/// The start of the word before a position: what lies between is all letters and
/// numbers, or none of it is; and it reaches as far back as that holds.
pub proof fn law_word_start(text: Seq<u16>, point: Point)
    requires
        text::fits(text),
        text::is_position(text, point),
        is_plain(text),
    ensures
        word_start(text, point) matches Some(reached) && {
            let from = text::offset_of(text, point);
            let to = text::offset_of(text, reached);
            &&& text::is_position(text, reached)
            &&& from > 0 ==> to < from
            &&& from == 0 ==> to == 0
            &&& forall|i: int| to <= i < from ==> #[trigger] of_one_class(text, i, from - 1)
            &&& 0 < to < from ==> !of_one_class(text, to - 1, from - 1)
        },
{
    let from = text::offset_of(text, point);
    text::lemma_offset_in_text(text, point);
    let back = text.take(from).reverse();
    assert(is_plain(back)) by {
        assert forall|i: int| 0 <= i < back.len() implies !(0xD800 <= #[trigger] back[i]
            < 0xE000) by {
            assert(!(0xD800 <= text[from - 1 - i] < 0xE000));
        }
    }
    lemma_plain_is_spelled(back);
    let chars = chars_before(text, point);
    let kinds = classes(chars);
    let steps = word_len(kinds);
    law_left_times(text, point, steps);
    let to = text::offset_of(text, word_start(text, point)->0);
    if back.len() > 0 {
        lemma_run_len(kinds, 1, kinds[0]);
        assert forall|i: int| 0 <= i < back.len() implies #[trigger] kinds[i] == alphanumeric(
            text[from - 1 - i] as char,
        ) by {
            assert(chars[i] == Some(back[i] as char));
        }
        assert forall|i: int| to <= i < from implies #[trigger] of_one_class(
            text,
            i,
            from - 1,
        ) by {
            assert(kinds[from - 1 - i] == kinds[0]);
        }
        if to > 0 {
            assert(kinds[from - to] != kinds[0]);
        }
    }
}

/// As many steps as a word takes, the characters ahead are all letters and numbers, or
/// none of them is; and the one after that is not like them. A character that cannot be
/// read is no letter.
pub proof fn law_word_len(chars: Seq<Option<char>>)
    requires
        chars.len() > 0,
    ensures
        ({
            let steps = word_len(classes(chars)) as int;
            let is_letter = |c: Option<char>| c is Some && alphanumeric(c->0);
            &&& 1 <= steps <= chars.len()
            &&& forall|i: int|
                0 <= i < steps ==> is_letter(#[trigger] chars[i]) == is_letter(chars[0])
            &&& steps < chars.len() ==> is_letter(chars[steps]) != is_letter(chars[0])
        }),
{
    let kinds = classes(chars);
    let steps = word_len(kinds) as int;
    let is_letter = |c: Option<char>| c is Some && alphanumeric(c->0);
    lemma_run_len(kinds, 1, kinds[0]);
    assert forall|i: int| 0 <= i < steps implies is_letter(#[trigger] chars[i]) == is_letter(
        chars[0],
    ) by {
        assert(kinds[i] == kinds[0]);
    }
    if steps < chars.len() {
        assert(kinds[steps] != kinds[0]);
    }
}

/// A word is left by as many code units as there are characters in it.
pub proof fn law_word_steps(text: Seq<u16>, point: Point)
    requires
        text::fits(text),
        text::is_position(text, point),
    ensures
        ({
            let from = text::offset_of(text, point);
            let back = word_len(classes(utf16::spelled(text.take(from).reverse())));
            let on = word_len(classes(utf16::spelled(text.skip(from))));
            &&& word_start(text, point) matches Some(start) && text::offset_of(text, start) == if from
                > back { from - back } else { 0 }
            &&& word_end(text, point) matches Some(end) && text::offset_of(text, end) == if from
                + on < text.len() { from + on } else { text.len() as int }
        }),
{
    let from = text::offset_of(text, point);
    law_left_times(text, point, word_len(classes(chars_before(text, point))));
    law_right_times(text, point, word_len(classes(chars_after(text, point))));
}

/// One code unit back.
pub fn left(buffer: &Buffer, point: Point) -> (result: Result<Point, Error>)
    requires
        buffer.wf(),
    ensures
        result == reached(left_of(buffer@.text, point)),
{
    let mut point = point;
    if point.column > 0 {
        point.column = point.column - 1;
    } else if point.row > 0 {
        point.row = point.row - 1;
        match buffer.len_for_row(point.row) {
            Ok(len) => {
                point.column = len;
            },
            Err(error) => {
                return Err(error);
            },
        }
    }
    Ok(point)
}

/// One code unit on.
pub fn right(buffer: &Buffer, point: Point) -> (result: Result<Point, Error>)
    requires
        buffer.wf(),
    ensures
        result == reached(right_of(buffer@.text, point)),
{
    let mut point = point;
    proof {
        buffer.law_selections_lie_in_text();
        text::lemma_rows_len(buffer@.text);
    }
    let max_column: u32 = match buffer.len_for_row(point.row) {
        Ok(len) => len,
        Err(error) => {
            return Err(error);
        },
    };
    if point.column < max_column {
        point.column = point.column + 1;
    } else {
        match buffer.max_point() {
            Ok(max_point) => {
                if point.row < max_point.row {
                    point.row = point.row + 1;
                    point.column = 0;
                }
            },
            Err(error) => {
                return Err(error);
            },
        }
    }
    Ok(point)
}

/// The same column one row up.
pub fn up(buffer: &Buffer, point: Point, goal_column: Option<u32>) -> (result: Result<
    (Point, Option<u32>),
    Error,
>)
    requires
        buffer.wf(),
    ensures
        result == (match above(buffer@.text, point, goal_column) {
            Some(place) => Ok((place, Some(goal(point, goal_column)))),
            None => Err(Error::Memo(MemoError::OffsetOutOfRange)),
        }),
{
    let goal: u32 = match goal_column {
        Some(column) => column,
        None => point.column,
    };
    if point.row > 0 {
        let row: u32 = point.row - 1;
        match buffer.len_for_row(row) {
            Ok(len) => {
                let column: u32 = if goal < len {
                    goal
                } else {
                    len
                };
                Ok((Point { row, column }, Some(goal)))
            },
            Err(error) => Err(error),
        }
    } else {
        Ok((Point { row: 0, column: 0 }, Some(goal)))
    }
}

/// The same column one row down.
pub fn down(buffer: &Buffer, point: Point, goal_column: Option<u32>) -> (result: Result<
    (Point, Option<u32>),
    Error,
>)
    requires
        buffer.wf(),
    ensures
        result == Ok::<(Point, Option<u32>), Error>(
            (below(buffer@.text, point, goal_column), Some(goal(point, goal_column))),
        ),
{
    let goal: u32 = match goal_column {
        Some(column) => column,
        None => point.column,
    };
    proof {
        buffer.law_selections_lie_in_text();
        text::lemma_rows_len(buffer@.text);
    }
    match buffer.max_point() {
        Ok(max_point) => {
            if point.row < max_point.row {
                let row: u32 = point.row + 1;
                match buffer.len_for_row(row) {
                    Ok(len) => {
                        let column: u32 = if goal < len {
                            goal
                        } else {
                            len
                        };
                        Ok((Point { row, column }, Some(goal)))
                    },
                    Err(error) => Err(error),
                }
            } else {
                Ok((max_point, Some(goal)))
            }
        },
        Err(error) => Err(error),
    }
}

/// How many steps a word takes, by which of the characters that lie ahead are
/// letters or numbers.
pub fn word_steps(classes: &Vec<bool>) -> (steps: usize)
    ensures
        steps == word_len(classes@),
        1 <= steps <= classes@.len() || steps == 1,
{
    if classes.len() == 0 {
        return 1;
    }
    let class: bool = classes[0];
    let mut steps: usize = 1;
    while steps < classes.len() && classes[steps] == class
        invariant
            1 <= steps <= classes@.len(),
            class == classes@[0],
            word_len(classes@) == steps + run_len(classes@, steps as int, class),
        decreases classes@.len() - steps,
    {
        steps += 1;
    }
    steps
}

/// Which of a list of characters are letters or numbers.
fn classify(chars: &Vec<Option<char>>) -> (result: Vec<bool>)
    ensures
        result@ == classes(chars@),
{
    let mut result: Vec<bool> = Vec::new();
    let mut i: usize = 0;
    while i < chars.len()
        invariant
            i <= chars.len(),
            result@ == classes(chars@).take(i as int),
        decreases chars.len() - i,
    {
        let class: bool = match chars[i] {
            Some(c) => c.is_alphanumeric(),
            None => false,
        };
        result.push(class);
        i += 1;
        assert(result@ =~= classes(chars@).take(i as int));
    }
    assert(result@ =~= classes(chars@));
    result
}

/// Whether every character of a word can be read.
fn check_word(chars: &Vec<Option<char>>) -> (readable: bool)
    ensures
        readable == reads_word(chars@),
{
    let classes = classify(chars);
    let steps = word_steps(&classes);
    let mut i: usize = 0;
    while i < chars.len() && i <= steps
        invariant
            i <= chars.len(),
            steps == word_len(self::classes(chars@)),
            forall|j: int| 0 <= j < i ==> #[trigger] chars@[j] is Some,
        decreases chars.len() - i,
    {
        if chars[i].is_none() {
            assert(chars@[i as int] is None);
            return false;
        }
        i += 1;
    }
    true
}

/// Whether the word that ends at a point can be read.
pub fn reads_word_before(buffer: &Buffer, point: Point) -> (readable: bool)
    requires
        buffer.wf(),
    ensures
        readable == reads_word(chars_before(buffer@.text, point)),
{
    match buffer.backward_iter_at_point(point) {
        Ok(units) => check_word(&utf16::decode(&units)),
        Err(_) => false,
    }
}

/// Whether the word that begins at a point can be read.
pub fn reads_word_after(buffer: &Buffer, point: Point) -> (readable: bool)
    requires
        buffer.wf(),
    ensures
        readable == reads_word(chars_after(buffer@.text, point)),
{
    match buffer.iter_at_point(point) {
        Ok(units) => check_word(&utf16::decode(&units)),
        Err(_) => false,
    }
}

/// The beginning of the word before a point, or of the stretch between words.
pub fn beginning_of_word(buffer: &Buffer, point: Point) -> (result: Result<Point, Error>)
    requires
        buffer.wf(),
        reads_word(chars_before(buffer@.text, point)),
    ensures
        result == reached(word_start(buffer@.text, point)),
{
    let units = match buffer.backward_iter_at_point(point) {
        Ok(units) => units,
        Err(error) => {
            return Err(error);
        },
    };
    let steps = word_steps(&classify(&utf16::decode(&units)));
    let mut current = point;
    let mut i: usize = 0;
    while i < steps
        invariant
            i <= steps,
            buffer.wf(),
            steps == word_len(classes(chars_before(buffer@.text, point))),
            left_times(buffer@.text, point, i as nat) == Some(current),
        decreases steps - i,
    {
        match left(buffer, current) {
            Ok(next) => {
                current = next;
            },
            Err(error) => {
                proof {
                    lemma_left_stops(buffer@.text, point, (i + 1) as nat, steps as nat);
                }
                return Err(error);
            },
        }
        i += 1;
    }
    Ok(current)
}

/// The end of the word after a point, or of the stretch between words.
pub fn end_of_word(buffer: &Buffer, point: Point) -> (result: Result<Point, Error>)
    requires
        buffer.wf(),
        reads_word(chars_after(buffer@.text, point)),
    ensures
        result == reached(word_end(buffer@.text, point)),
{
    let units = match buffer.iter_at_point(point) {
        Ok(units) => units,
        Err(error) => {
            return Err(error);
        },
    };
    let steps = word_steps(&classify(&utf16::decode(&units)));
    let mut current = point;
    let mut i: usize = 0;
    while i < steps
        invariant
            i <= steps,
            buffer.wf(),
            steps == word_len(classes(chars_after(buffer@.text, point))),
            right_times(buffer@.text, point, i as nat) == Some(current),
        decreases steps - i,
    {
        match right(buffer, current) {
            Ok(next) => {
                current = next;
            },
            Err(error) => {
                proof {
                    lemma_right_stops(buffer@.text, point, (i + 1) as nat, steps as nat);
                }
                return Err(error);
            },
        }
        i += 1;
    }
    Ok(current)
}

/// Once there is no place further left, there is none further still.
proof fn lemma_left_stops(text: Seq<u16>, point: Point, fewer: nat, more: nat)
    requires
        fewer <= more,
        left_times(text, point, fewer) is None,
    ensures
        left_times(text, point, more) is None,
    decreases more,
{
    if fewer < more {
        lemma_left_stops(text, point, fewer, (more - 1) as nat);
    }
}

/// Once there is no place further right, there is none further still.
proof fn lemma_right_stops(text: Seq<u16>, point: Point, fewer: nat, more: nat)
    requires
        fewer <= more,
        right_times(text, point, fewer) is None,
    ensures
        right_times(text, point, more) is None,
    decreases more,
{
    if fewer < more {
        lemma_right_stops(text, point, fewer, (more - 1) as nat);
    }
}

/// The start of the row of a point.
pub fn beginning_of_line(point: Point) -> (result: Point)
    ensures
        result == (Point { row: point.row, column: 0 }),
{
    let mut point = point;
    point.column = 0;
    point
}

/// The end of the row of a point.
pub fn end_of_line(buffer: &Buffer, point: Point) -> (result: Result<Point, Error>)
    requires
        buffer.wf(),
    ensures
        result == (if point.row < text::rows(buffer@.text).len() {
            Ok(
                Point {
                    row: point.row,
                    column: text::rows(buffer@.text)[point.row as int].len() as u32,
                },
            )
        } else {
            Err(Error::Memo(MemoError::OffsetOutOfRange))
        }),
{
    match buffer.len_for_row(point.row) {
        Ok(len) => Ok(Point { row: point.row, column: len }),
        Err(error) => Err(error),
    }
}

/// A place that is there is what is given, and one that is not is an error.
pub proof fn law_place_is_given(point: Point)
    ensures
        reached(Some(point)) == Ok::<Point, Error>(point),
        reached(None) == Err::<Point, Error>(Error::Memo(MemoError::OffsetOutOfRange)),
{
}

} // verus!
