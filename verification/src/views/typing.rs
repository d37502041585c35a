//! What typing and deleting make of a text.

use std::ops::Range;

use vstd::prelude::*;

use crate::buffer;
use crate::movement;
use crate::point::Point;
use crate::text;
use crate::utf16;
use crate::views::editor::{BufferViewAction, EditorModel};
use crate::views::edits;
use crate::views::motion::{self, Motion};

verus! {

/// Whether the cursor that follows a typed character comes to stand right behind
/// it. A column counts code units while a cursor moves on by bytes of UTF-8, and
/// a newline does not take it back to the first column, so in the middle of a row
/// only characters of one byte are followed exactly; at the end of a row the
/// cursor cannot go too far.
pub open spec fn is_followed(text: Seq<u16>, point: Point, c: char) -> bool {
    &&& (c as int) < 0x10000
    &&& {
        ||| point.column == text::rows(text)[point.row as int].len()
        ||| c == '\n' && point.column == 0
        ||| c != '\n' && (c as int) < 0x80
    }
}

/// The text with a code unit inserted.
spec fn inserted(text: Seq<u16>, offset: int, unit: u16) -> Seq<u16> {
    text.take(offset) + seq![unit] + text.skip(offset)
}

/// The position behind an inserted code unit.
proof fn lemma_behind(text: Seq<u16>, point: Point, unit: u16)
    requires
        text::is_position(text, point),
        text.len() + 1 < u32::MAX,
    ensures
        ({
            let offset = text::offset_of(text, point);
            let after = inserted(text, offset, unit);
            &&& after.len() == text.len() + 1
            &&& text::point_at(after, offset) == point
            &&& text::is_position(after, point)
            &&& text::offset_of(after, point) == offset
            &&& text::point_at(after, offset + 1) == if unit == text::NEWLINE {
                Point { row: (point.row + 1) as u32, column: 0 }
            } else {
                Point { row: point.row, column: (point.column + 1) as u32 }
            }
            &&& text::is_position(after, text::point_at(after, offset + 1))
            &&& text::offset_of(after, text::point_at(after, offset + 1)) == offset + 1
        }),
{
    let offset = text::offset_of(text, point);
    text::lemma_offset_in_text(text, point);
    text::lemma_point_of_offset(text, point);
    let after = inserted(text, offset, unit);
    assert(after.take(offset) =~= text.take(offset));
    assert(after.take(offset + 1) =~= text.take(offset).push(unit));
    assert(after.take(offset + 1).drop_last() =~= text.take(offset));
    text::lemma_rows_len(text.take(offset));
    text::lemma_point_at(after, offset);
    text::lemma_point_at(after, offset + 1);
}

/// Where the cursor goes when one character is typed is the position behind it.
proof fn lemma_followed(text: Seq<u16>, point: Point, c: char)
    requires
        text::is_position(text, point),
        text.len() + 1 < u32::MAX,
        is_followed(text, point, c),
        point.row + edits::newlines(seq![c]) <= u32::MAX,
        point.column + edits::last_line_bytes(seq![c]) <= u32::MAX,
    ensures
        ({
            let offset = text::offset_of(text, point);
            text::clipped(inserted(text, offset, c as u16), edits::typed(point, seq![c]))
                == text::point_at(inserted(text, offset, c as u16), offset + 1)
        }),
{
    let offset = text::offset_of(text, point);
    let unit = c as u16;
    let after = inserted(text, offset, unit);
    let behind = text::point_at(after, offset + 1);
    text::lemma_offset_in_text(text, point);
    lemma_behind(text, point, unit);
    let chars = seq![c];
    assert(chars.drop_last() =~= Seq::<char>::empty());
    assert(edits::newlines(chars.drop_last()) == 0);
    assert(edits::last_line_bytes(chars.drop_last()) == 0);
    if point.column == text::rows(text)[point.row as int].len() {
        text::law_row_ends(text, point);
        if offset < text.len() {
            assert(after[offset + 1] == text[offset]);
        }
        text::law_row_ends(after, behind);
    }
    assert(text::offset_of(after, edits::typed(point, chars)) == offset + 1);
}

/// Deleting the stretch between two positions, selected in either direction,
/// leaves a cursor where the stretch began.
proof fn lemma_deleted(editor: EditorModel, first: Point, second: Point)
    requires
        text::fits(editor.buffer.text),
        text::is_position(editor.buffer.text, first),
        text::is_position(editor.buffer.text, second),
        first.before(second),
        editor.buffer.local.contains_key(editor.view.selection_set_id),
        editor.selections() == seq![Range { start: first, end: second }] || editor.selections()
            == seq![Range { start: second, end: first }],
    ensures
        ({
            let text = editor.buffer.text;
            let start = text::offset_of(text, first);
            let end = text::offset_of(text, second);
            let left = text.take(start) + text.skip(end);
            &&& editor.edited(Seq::empty()).buffer.text == left
            &&& editor.edited(Seq::empty()).selections() == seq![
                motion::cursor(text::point_at(left, start)),
            ]
        }),
{
    let text = editor.buffer.text;
    let start = text::offset_of(text, first);
    let end = text::offset_of(text, second);
    let left = text.take(start) + text.skip(end);
    let deleted = Range { start: start as usize, end: end as usize };
    let nothing = Seq::<char>::empty();
    text::lemma_offset_in_text(text, first);
    text::lemma_offset_in_text(text, second);
    text::lemma_offsets_ordered(text, first, second);
    assert(edits::ordered(editor.selections()[0]) == (Range { start: first, end: second }));
    assert(editor.selected_offsets() =~= seq![deleted]);
    assert(editor.selected_offsets().drop_last() =~= Seq::<Range<usize>>::empty());
    assert(utf16::units_of(nothing) =~= Seq::<u16>::empty());
    let spliced = editor.buffer.spliced(deleted, Seq::empty());
    assert(spliced.text =~= left);
    assert(spliced.edited(Seq::empty(), Seq::empty()) == spliced);
    let replaced = editor.replaced(nothing);
    assert(replaced.buffer.text == left);
    let point = text::point_at(left, start);
    text::lemma_point_at(left, start);
    assert(replaced.selections() =~= seq![motion::cursor(point)]);
    assert(replaced.selections()[0] == motion::cursor(point));
    assert(edits::typed(point, nothing) == point);
    assert(editor.edited(nothing).selections() =~= seq![motion::cursor(point)]);
}

/// Where there is one cursor, a backspace undoes the typing of a character: the
/// text is as it was, and the cursor where it was.
pub proof fn law_backspace_undoes_typing(editor: EditorModel, point: Point, c: char)
    requires
        text::fits(editor.buffer.text),
        text::is_position(editor.buffer.text, point),
        editor.buffer.local.contains_key(editor.view.selection_set_id),
        editor.selections() == seq![motion::cursor(point)],
        editor.has_room_for(seq![c]),
        is_followed(editor.buffer.text, point, c),
    ensures
        editor.edited(seq![c]).before_backspace().edited(Seq::empty()).buffer.text
            == editor.buffer.text,
        editor.edited(seq![c]).before_backspace().edited(Seq::empty()).selections()
            == editor.selections(),
{
    let text = editor.buffer.text;
    let chars = seq![c];
    let offset = text::offset_of(text, point);
    let unit = c as u16;
    let range = Range { start: offset as usize, end: offset as usize };
    text::lemma_offset_in_text(text, point);
    assert(chars.drop_last() =~= Seq::<char>::empty());
    assert(utf16::units_of(chars.drop_last()) == Seq::<u16>::empty());
    assert(utf16::units_of(chars) =~= seq![unit]);
    assert(editor.selected_offsets() =~= seq![range]);
    let after = inserted(text, offset, unit);
    let replaced = editor.replaced(chars);
    assert(editor.selected_offsets().drop_last() =~= Seq::<Range<usize>>::empty());
    let spliced = editor.buffer.spliced(range, seq![unit]);
    assert(spliced.text =~= after);
    assert(spliced.edited(Seq::empty(), seq![unit]) == spliced);
    assert(replaced.buffer.text == after);
    lemma_behind(text, point, unit);
    assert(replaced.selections() =~= seq![motion::cursor(point)]);
    assert(replaced.selections()[0] == motion::cursor(point));
    lemma_followed(text, point, c);
    let behind = text::point_at(after, offset + 1);
    let typed = editor.edited(chars);
    assert(typed.selections() =~= seq![motion::cursor(behind)]);

    movement::law_left(after, behind);
    text::lemma_offsets_ordered(after, movement::left_of(after, behind)->0, point);
    text::lemma_point_of_offset(after, point);
    let selected = typed.before_backspace();
    assert(selected.buffer.text == after);
    assert(selected.selections() =~= seq![Range { start: behind, end: point }]);

    text::lemma_offsets_ordered(after, point, behind);
    lemma_deleted(selected, point, behind);
    assert(after.take(offset) + after.skip(offset + 1) =~= text);
    text::lemma_point_of_offset(text, point);
}

/// Where there is one cursor that is not at the end of the text, to delete is to
/// step right and take a backspace.
pub proof fn law_delete_is_right_and_backspace(editor: EditorModel, point: Point)
    requires
        text::fits(editor.buffer.text),
        text::is_position(editor.buffer.text, point),
        point != text::end_point(editor.buffer.text),
        editor.buffer.local.contains_key(editor.view.selection_set_id),
        editor.selections() == seq![motion::cursor(point)],
    ensures
        editor.before_delete().edited(Seq::empty()).buffer.text == editor.moved(
            Motion::MoveRight,
        ).before_backspace().edited(Seq::empty()).buffer.text,
        editor.before_delete().edited(Seq::empty()).selections() == editor.moved(
            Motion::MoveRight,
        ).before_backspace().edited(Seq::empty()).selections(),
{
    let text = editor.buffer.text;
    let right = movement::right_of(text, point)->0;
    movement::law_right(text, point);
    movement::law_left_undoes_right(text, point);
    text::lemma_rows_len(text);
    text::lemma_offset_in_text(text, point);
    text::lemma_offsets_ordered(text, point, text::end_point(text));
    text::lemma_offsets_ordered(text, point, right);
    text::lemma_point_of_offset(text, point);
    text::lemma_point_of_offset(text, right);
    let deleting = editor.before_delete();
    assert(deleting.selections() =~= seq![Range { start: point, end: right }]);
    let moved = editor.moved(Motion::MoveRight);
    assert(moved.selections() =~= seq![motion::cursor(right)]);
    let selected = moved.before_backspace();
    assert(selected.selections() =~= seq![Range { start: right, end: point }]);
    lemma_deleted(deleting, point, right);
    lemma_deleted(selected, point, right);
}

/// Characters have no more newlines than there are of them, and no more than four
/// bytes each.
proof fn lemma_measures(chars: Seq<char>)
    ensures
        edits::newlines(chars) <= chars.len(),
        edits::last_line_bytes(chars) <= 4 * chars.len(),
    decreases chars.len(),
{
    if chars.len() > 0 {
        lemma_measures(chars.drop_last());
    }
}

/// There is room to type wherever the text, all that is inserted and the bytes of what
/// is typed keep to the bound of the text together.
pub proof fn law_room_to_type(editor: EditorModel, chars: Seq<char>)
    requires
        editor.buffer.local.contains_key(editor.view.selection_set_id),
        buffer::in_text(editor.buffer.text, editor.selections()),
        editor.buffer.text.len() + editor.selections().len() * utf16::units_of(chars).len() + 4
            * chars.len() < u32::MAX,
    ensures
        editor.has_room_for(chars),
{
    let set_id = editor.view.selection_set_id;
    let ranges = editor.selected_offsets();
    let units = utf16::units_of(chars);
    assert(ranges.len() == editor.selections().len());
    buffer::law_short_edit_fits(editor.buffer, ranges, units);
    buffer::law_edit_keeps_selections_in_text(editor.buffer, ranges, units, set_id);
    buffer::lemma_edited_len(editor.buffer, ranges, units);
    lemma_measures(chars);
    let replaced = editor.replaced(chars);
    text::lemma_rows_len(replaced.buffer.text);
    assert forall|i: int| 0 <= i < replaced.selections().len() implies {
        let start = edits::ordered(#[trigger] replaced.selections()[i]).start;
        start.row + edits::newlines(chars) <= u32::MAX && start.column + edits::last_line_bytes(
            chars,
        ) <= u32::MAX
    } by {
        let selection = replaced.selections()[i];
        let start = edits::ordered(selection).start;
        assert(text::is_position(replaced.buffer.text, start));
        text::lemma_row_in_text(replaced.buffer.text, start.row as int);
    }
}

/// Whether a range of offsets is what a selection spans, whichever way it was made.
pub open spec fn is_span(text: Seq<u16>, selection: Range<Point>, range: Range<usize>) -> bool {
    let start = text::offset_of(text, selection.start);
    let end = text::offset_of(text, selection.end);
    &&& range.start <= range.end
    &&& (range.start == start && range.end == end) || (range.start == end && range.end == start)
}

/// Whether ranges of offsets are what the selections of a view span, and come in
/// ascending order.
pub open spec fn are_spans(editor: EditorModel, ranges: Seq<Range<usize>>) -> bool {
    &&& ranges.len() == editor.selections().len()
    &&& forall|i: int|
        0 <= i < ranges.len() ==> is_span(
            editor.buffer.text,
            editor.selections()[i],
            #[trigger] ranges[i],
        )
    &&& buffer::strictly_ascending(ranges, editor.buffer.text.len())
}

/// Whether every character is of one byte and none is a newline.
pub open spec fn is_plain(chars: Seq<char>) -> bool {
    forall|i: int|
        0 <= i < chars.len() ==> (#[trigger] chars[i] as int) < 0x80 && chars[i] != '\n'
}

proof fn lemma_plain_char(c: char)
    requires
        (c as int) < 0x80,
        c != '\n',
    ensures
        utf16::char_units(c).len() == 1,
        utf16::char_units(c)[0] != text::NEWLINE,
        edits::char_bytes(c) == 1,
{
    assert(c as u16 != text::NEWLINE);
}

proof fn lemma_plain_chars(chars: Seq<char>)
    requires
        is_plain(chars),
    ensures
        utf16::units_of(chars).len() == chars.len(),
        forall|i: int|
            0 <= i < chars.len() ==> #[trigger] utf16::units_of(chars)[i] != text::NEWLINE,
        edits::newlines(chars) == 0,
        edits::last_line_bytes(chars) == chars.len(),
    decreases chars.len(),
{
    if chars.len() > 0 {
        let shorter = chars.drop_last();
        assert(chars[chars.len() - 1] == chars.last());
        assert(is_plain(shorter)) by {
            assert forall|i: int| 0 <= i < shorter.len() implies (#[trigger] shorter[i] as int)
                < 0x80 && shorter[i] != '\n' by {
                assert(chars[i] == shorter[i]);
            }
        }
        lemma_plain_chars(shorter);
        let last = chars.last();
        assert((chars[chars.len() - 1] as int) < 0x80 && chars[chars.len() - 1] != '\n');
        lemma_plain_char(last);
    }
}

/// In a stretch without a newline, columns go on as offsets do.
proof fn lemma_along_row(text: Seq<u16>, offset: int, count: int)
    requires
        text::fits(text),
        0 <= offset <= offset + count <= text.len(),
        forall|i: int| offset <= i < offset + count ==> #[trigger] text[i] != text::NEWLINE,
    ensures
        text::point_at(text, offset + count).row == text::point_at(text, offset).row,
        text::point_at(text, offset + count).column == text::point_at(text, offset).column + count,
    decreases count,
{
    if count > 0 {
        lemma_along_row(text, offset, count - 1);
        let longer = text.take(offset + count);
        assert(longer.drop_last() =~= text.take(offset + count - 1));
        assert(longer.last() == text[offset + count - 1]);
        text::lemma_rows_len(text.take(offset + count - 1));
        text::lemma_rows_len(longer);
        text::lemma_row_in_text(longer, text::rows(longer).len() - 1);
    }
}

/// What is selected, as offsets in ascending order.
proof fn lemma_selected_offsets(editor: EditorModel, ranges: Seq<Range<usize>>)
    requires
        text::fits(editor.buffer.text),
        buffer::in_text(editor.buffer.text, editor.selections()),
        are_spans(editor, ranges),
    ensures
        editor.selected_offsets() == ranges,
{
    let text = editor.buffer.text;
    assert forall|i: int| 0 <= i < ranges.len() implies editor.selected_offsets()[i]
        == #[trigger] ranges[i] by {
        let selection = editor.selections()[i];
        assert(is_span(text, selection, ranges[i]));
        text::lemma_offsets_ordered(text, selection.start, selection.end);
        text::lemma_offsets_ordered(text, selection.end, selection.start);
        text::lemma_offset_in_text(text, selection.start);
        text::lemma_offset_in_text(text, selection.end);
    }
    assert(editor.selected_offsets() =~= ranges);
}

/// Where the stretch that a selection spanned begins, once each selection is replaced.
proof fn lemma_replaced_start(
    editor: EditorModel,
    chars: Seq<char>,
    ranges: Seq<Range<usize>>,
    index: int,
)
    requires
        text::fits(editor.buffer.text),
        editor.has_set(),
        buffer::in_text(editor.buffer.text, editor.selections()),
        editor.has_room_for(chars),
        are_spans(editor, ranges),
        0 <= index < ranges.len(),
    ensures
        ({
            let text = editor.buffer.text;
            let units = utf16::units_of(chars);
            let replaced = editor.replaced(chars);
            let start = buffer::with_replaced(
                text.take(ranges[index].start as int),
                ranges.take(index),
                units,
            ).len() as int;
            &&& text::fits(replaced.buffer.text)
            &&& replaced.buffer.text == buffer::with_replaced(text, ranges, units)
            &&& replaced.has_set()
            &&& replaced.selections().len() == ranges.len()
            &&& 0 <= start <= replaced.buffer.text.len()
            &&& edits::ordered(replaced.selections()[index]).start == text::point_at(
                replaced.buffer.text,
                start,
            )
        }),
{
    let text = editor.buffer.text;
    let units = utf16::units_of(chars);
    let set_id = editor.view.selection_set_id;
    let selection = editor.selections()[index];
    let range = ranges[index];
    let after = editor.buffer.edited(ranges, units);
    lemma_selected_offsets(editor, ranges);
    buffer::law_edit_replaces_each_range(editor.buffer, ranges, units);
    buffer::law_edit_keeps_the_rest(editor.buffer, ranges, units);
    lemma_edit_fits(editor.buffer, ranges, units);
    assert(is_span(text, selection, range));
    assert(text::is_position(text, selection.start));
    let first = text::offset_of(text, selection.start) == range.start;
    assert(buffer::lies_behind(ranges, index, range.start as int)) by {
        assert forall|i: int| 0 <= i < index implies (#[trigger] ranges[i]).start < range.start
            && ranges[i].end <= range.start by {
            assert(ranges[i].end <= ranges[index].start);
        }
        assert forall|i: int| index <= i < ranges.len() implies range.start <= (
        #[trigger] ranges[i]).start by {
            if index < i {
                assert(ranges[index].start < ranges[i].start);
            }
        }
    }
    buffer::law_edit_moves_selections(
        editor.buffer,
        ranges,
        units,
        set_id,
        index,
        first,
        index,
    );
    let moved = after.local[set_id][index];
    let start = buffer::with_replaced(text.take(range.start as int), ranges.take(index), units).len()
        as int;
    let earlier = buffer::one_end(moved, first);
    let later = buffer::one_end(moved, !first);
    text::lemma_point_of_offset(after.text, earlier);
    text::lemma_offset_in_text(after.text, earlier);
    buffer::law_edit_keeps_selections_in_text(editor.buffer, ranges, units, set_id);
    assert(text::is_position(after.text, after.local[set_id][index].start));
    text::lemma_offsets_ordered(
        text,
        buffer::one_end(selection, !first),
        buffer::one_end(selection, first),
    );
    lemma_ends_stay_in_order(editor.buffer, ranges, units, set_id, index, first);
    text::lemma_offsets_ordered(after.text, earlier, later);
    text::lemma_offsets_ordered(after.text, later, earlier);
    assert(editor.replaced(chars).buffer.local[set_id] == after.local[set_id]);
}

/// An edit that keeps to the bound leaves a text that does.
proof fn lemma_edit_fits(buffer: buffer::BufferModel, ranges: Seq<Range<usize>>, new: Seq<u16>)
    requires
        text::fits(buffer.text),
        buffer.edit_fits(ranges, new),
    ensures
        text::fits(buffer.edited(ranges, new).text),
    decreases ranges.len(),
{
    if ranges.len() > 0 {
        lemma_edit_fits(buffer.spliced(ranges.last(), new), ranges.drop_last(), new);
    }
}

/// An edit leaves the ends of a selection in their order.
proof fn lemma_ends_stay_in_order(
    buffer: buffer::BufferModel,
    ranges: Seq<Range<usize>>,
    new: Seq<u16>,
    set_id: buffer::SelectionSetId,
    index: int,
    first: bool,
)
    requires
        buffer.edit_fits(ranges, new),
        buffer.local.contains_key(set_id),
        buffer::in_text(buffer.text, buffer.local[set_id]),
        0 <= index < buffer.local[set_id].len(),
        !buffer::one_end(buffer.local[set_id][index], !first).before(
            buffer::one_end(buffer.local[set_id][index], first),
        ),
    ensures
        !buffer::one_end(buffer.edited(ranges, new).local[set_id][index], !first).before(
            buffer::one_end(buffer.edited(ranges, new).local[set_id][index], first),
        ),
    decreases ranges.len(),
{
    if ranges.len() > 0 {
        let range = ranges.last();
        let after = buffer.spliced(range, new);
        let before = buffer.local[set_id];
        let moved = after.local[set_id];
        assert(moved == buffer::moved_ranges(buffer.text, before, range, new));
        assert forall|i: int| 0 <= i < moved.len() implies text::is_position(
            after.text,
            (#[trigger] moved[i]).start,
        ) && text::is_position(after.text, moved[i].end) by {
            let a = before[i].start;
            let b = before[i].end;
            if b.before(a) {
                buffer::law_moved_points_stay_in_order(buffer.text, b, a, range, new);
            } else {
                buffer::law_moved_points_stay_in_order(buffer.text, a, b, range, new);
            }
        }
        assert(text::is_position(buffer.text, before[index].start));
        buffer::law_moved_points_stay_in_order(
            buffer.text,
            buffer::one_end(before[index], first),
            buffer::one_end(before[index], !first),
            range,
            new,
        );
        lemma_ends_stay_in_order(after, ranges.drop_last(), new, set_id, index, first);
    }
}

/// What becomes of the text and of one selection when characters are typed.
proof fn lemma_typing(
    editor: EditorModel,
    chars: Seq<char>,
    ranges: Seq<Range<usize>>,
    index: int,
)
    requires
        text::fits(editor.buffer.text),
        editor.has_set(),
        buffer::in_text(editor.buffer.text, editor.selections()),
        editor.has_room_for(chars),
        are_spans(editor, ranges),
        0 <= index < ranges.len(),
    ensures
        ({
            let text = editor.buffer.text;
            let units = utf16::units_of(chars);
            let after = editor.edited(chars);
            let start = text::point_at(
                after.buffer.text,
                buffer::with_replaced(
                    text.take(ranges[index].start as int),
                    ranges.take(index),
                    units,
                ).len() as int,
            );
            let cursor = after.selections()[index];
            &&& after.buffer.text == buffer::with_replaced(text, ranges, units)
            &&& after.selections().len() == ranges.len()
            &&& cursor.start == cursor.end
            &&& text::is_position(after.buffer.text, cursor.end)
            &&& text::offset_of(after.buffer.text, cursor.end) == text::offset_of(
                after.buffer.text,
                Point {
                    row: (start.row + edits::newlines(chars)) as u32,
                    column: (start.column + edits::last_line_bytes(chars)) as u32,
                },
            )
        }),
{
    let after = editor.edited(chars);
    let replaced = editor.replaced(chars);
    lemma_replaced_start(editor, chars, ranges, index);
    let start = edits::ordered(replaced.selections()[index]).start;
    let target = edits::typed(start, chars);
    text::lemma_offset_in_text(replaced.buffer.text, target);
    text::lemma_point_at(replaced.buffer.text, text::offset_of(replaced.buffer.text, target));
    assert(after.selections()[index] == buffer::clip_range(
        replaced.buffer.text,
        motion::cursor(target),
    ));
}

/// Where a cursor comes to stand when characters of one byte are typed.
proof fn lemma_typing_plain(
    editor: EditorModel,
    chars: Seq<char>,
    ranges: Seq<Range<usize>>,
    index: int,
)
    requires
        text::fits(editor.buffer.text),
        editor.has_set(),
        buffer::in_text(editor.buffer.text, editor.selections()),
        editor.has_room_for(chars),
        are_spans(editor, ranges),
        0 <= index < ranges.len(),
        is_plain(chars),
    ensures
        ({
            let text = editor.buffer.text;
            let units = utf16::units_of(chars);
            let after = editor.edited(chars);
            let before = buffer::with_replaced(
                text.take(ranges[index].end as int),
                ranges.take(index + 1),
                units,
            );
            let cursor = after.selections()[index];
            &&& before.is_prefix_of(after.buffer.text)
            &&& cursor.start == cursor.end
            &&& text::is_position(after.buffer.text, cursor.end)
            &&& text::offset_of(after.buffer.text, cursor.end) == before.len()
        }),
{
    let units = utf16::units_of(chars);
    lemma_typing(editor, chars, ranges, index);
    lemma_replaced_start(editor, chars, ranges, index);
    lemma_plain_chars(chars);
    lemma_behind_replacement(editor.buffer.text, ranges, units, index);
}

/// What is typed takes the place of each selection, all at once, and everything else
/// stays. Each selection becomes a cursor: as many rows below where its stretch began as
/// there are newlines, and as many columns on as the last line has bytes, or at the end
/// of that row or of the text where that comes first.
pub proof fn law_typing_replaces_each_selection(
    editor: EditorModel,
    typed: String,
    ranges: Seq<Range<usize>>,
    index: int,
)
    requires
        text::fits(editor.buffer.text),
        editor.has_set(),
        buffer::in_text(editor.buffer.text, editor.selections()),
        editor.has_room_for(typed@),
        are_spans(editor, ranges),
        0 <= index < ranges.len(),
    ensures
        ({
            let text = editor.buffer.text;
            let units = utf16::units_of(typed@);
            let after = editor.after(BufferViewAction::Edit { text: typed });
            let start = text::point_at(
                after.buffer.text,
                buffer::with_replaced(
                    text.take(ranges[index].start as int),
                    ranges.take(index),
                    units,
                ).len() as int,
            );
            let cursor = after.selections()[index];
            &&& after.buffer.text == buffer::with_replaced(text, ranges, units)
            &&& after.selections().len() == ranges.len()
            &&& cursor.start == cursor.end
            &&& text::is_position(after.buffer.text, cursor.end)
            &&& text::offset_of(after.buffer.text, cursor.end) == text::offset_of(
                after.buffer.text,
                Point {
                    row: (start.row + edits::newlines(typed@)) as u32,
                    column: (start.column + edits::last_line_bytes(typed@)) as u32,
                },
            )
        }),
{
    lemma_typing(editor, typed@, ranges, index);
}

/// Typing characters of one byte, without a newline, in place of each selection leaves
/// each cursor right behind what was typed there.
pub proof fn law_cursors_follow_what_is_typed(
    editor: EditorModel,
    typed: String,
    ranges: Seq<Range<usize>>,
    index: int,
)
    requires
        text::fits(editor.buffer.text),
        editor.has_set(),
        buffer::in_text(editor.buffer.text, editor.selections()),
        editor.has_room_for(typed@),
        are_spans(editor, ranges),
        0 <= index < ranges.len(),
        is_plain(typed@),
    ensures
        ({
            let text = editor.buffer.text;
            let units = utf16::units_of(typed@);
            let after = editor.after(BufferViewAction::Edit { text: typed });
            let before = buffer::with_replaced(
                text.take(ranges[index].end as int),
                ranges.take(index + 1),
                units,
            );
            let cursor = after.selections()[index];
            &&& before.is_prefix_of(after.buffer.text)
            &&& cursor.start == cursor.end
            &&& text::is_position(after.buffer.text, cursor.end)
            &&& text::offset_of(after.buffer.text, cursor.end) == before.len()
        }),
{
    lemma_typing_plain(editor, typed@, ranges, index);
}

/// Behind what replaces one of some ranges, in a text without newlines in what is new.
proof fn lemma_behind_replacement(
    text: Seq<u16>,
    ranges: Seq<Range<usize>>,
    units: Seq<u16>,
    index: int,
)
    requires
        buffer::ascending(ranges, text.len()),
        0 <= index < ranges.len(),
        text::fits(buffer::with_replaced(text, ranges, units)),
        forall|i: int| 0 <= i < units.len() ==> #[trigger] units[i] != text::NEWLINE,
    ensures
        ({
            let whole = buffer::with_replaced(text, ranges, units);
            let range = ranges[index];
            let begun = buffer::with_replaced(
                text.take(range.start as int),
                ranges.take(index),
                units,
            );
            let before = buffer::with_replaced(
                text.take(range.end as int),
                ranges.take(index + 1),
                units,
            );
            let start = text::point_at(whole, begun.len() as int);
            &&& before.is_prefix_of(whole)
            &&& start.column + units.len() <= u32::MAX
            &&& text::offset_of(
                whole,
                Point { row: start.row, column: (start.column + units.len()) as u32 },
            ) == before.len()
        }),
{
    let whole = buffer::with_replaced(text, ranges, units);
    let range = ranges[index];
    let begun = buffer::with_replaced(text.take(range.start as int), ranges.take(index), units);
    let before = buffer::with_replaced(text.take(range.end as int), ranges.take(index + 1), units);
    assert(ranges.take(index + 1).drop_last() =~= ranges.take(index));
    assert(text.take(range.end as int).take(range.start as int) =~= text.take(range.start as int));
    assert(text.take(range.end as int).skip(range.end as int) =~= Seq::<u16>::empty());
    assert(before =~= begun + units);
    buffer::lemma_replaced_prefix(text, ranges, units, index);
    assert forall|i: int| begun.len() <= i < begun.len() + units.len() implies #[trigger] whole[i]
        != text::NEWLINE by {
        assert(whole[i] == before[i]);
        assert(before[i] == units[i - begun.len()]);
    }
    lemma_along_row(whole, begun.len() as int, units.len() as int);
    text::lemma_point_at(whole, before.len() as int);
    let start = text::point_at(whole, begun.len() as int);
    assert(text::point_at(whole, before.len() as int) == (Point {
        row: start.row,
        column: (start.column + units.len()) as u32,
    }));
}

/// Whether ranges of offsets span the code unit before each cursor, or nothing at the
/// start of the text, and come in ascending order.
pub open spec fn are_before_cursors(editor: EditorModel, ranges: Seq<Range<usize>>) -> bool {
    &&& ranges.len() == editor.selections().len()
    &&& forall|i: int|
        0 <= i < ranges.len() ==> {
            let offset = text::offset_of(editor.buffer.text, editor.selections()[i].end);
            &&& (#[trigger] ranges[i]).end == offset
            &&& offset > 0 ==> ranges[i].start == offset - 1
            &&& offset == 0 ==> ranges[i].start == 0
        }
    &&& buffer::strictly_ascending(ranges, editor.buffer.text.len())
}

/// Whether ranges of offsets span the code unit behind each cursor, or nothing at the
/// end of the text, and come in ascending order.
pub open spec fn are_behind_cursors(editor: EditorModel, ranges: Seq<Range<usize>>) -> bool {
    &&& ranges.len() == editor.selections().len()
    &&& forall|i: int|
        0 <= i < ranges.len() ==> {
            let offset = text::offset_of(editor.buffer.text, editor.selections()[i].end);
            &&& (#[trigger] ranges[i]).start == offset
            &&& offset < editor.buffer.text.len() ==> ranges[i].end == offset + 1
            &&& offset == editor.buffer.text.len() ==> ranges[i].end == offset
        }
    &&& buffer::strictly_ascending(ranges, editor.buffer.text.len())
}

/// Whether just some ranges of the text are deleted, with a cursor where each of them
/// was.
pub open spec fn are_deleted(
    before: EditorModel,
    ranges: Seq<Range<usize>>,
    after: EditorModel,
) -> bool {
    &&& after.buffer.text == buffer::with_replaced(before.buffer.text, ranges, Seq::empty())
    &&& after.selections().len() == ranges.len()
    &&& forall|i: int|
        0 <= i < ranges.len() ==> {
            let cursor = #[trigger] after.selections()[i];
            &&& cursor.start == cursor.end
            &&& text::is_position(after.buffer.text, cursor.end)
            &&& text::offset_of(after.buffer.text, cursor.end) == buffer::with_replaced(
                before.buffer.text.take(ranges[i].end as int),
                ranges.take(i + 1),
                Seq::empty(),
            ).len()
        }
}

proof fn lemma_deletes(editor: EditorModel, ranges: Seq<Range<usize>>)
    requires
        text::fits(editor.buffer.text),
        editor.has_set(),
        editor.selections().len() > 0,
        buffer::in_text(editor.buffer.text, editor.selections()),
        are_spans(editor, ranges),
    ensures
        are_deleted(editor, ranges, editor.edited(Seq::empty())),
{
    let nothing = Seq::<char>::empty();
    let after = editor.edited(nothing);
    assert(utf16::units_of(nothing) =~= Seq::<u16>::empty());
    lemma_selected_offsets(editor, ranges);
    crate::views::editor::lemma_room_to_delete(editor.buffer, ranges);
    assert(editor.has_room_for(nothing));
    lemma_typing(editor, nothing, ranges, 0);
    assert forall|i: int| 0 <= i < ranges.len() implies {
        let cursor = #[trigger] after.selections()[i];
        &&& cursor.start == cursor.end
        &&& text::is_position(after.buffer.text, cursor.end)
        &&& text::offset_of(after.buffer.text, cursor.end) == buffer::with_replaced(
            editor.buffer.text.take(ranges[i].end as int),
            ranges.take(i + 1),
            Seq::empty(),
        ).len()
    } by {
        lemma_typing_plain(editor, nothing, ranges, i);
    }
}

/// Where something is selected, a backspace and a delete both delete just what is
/// selected.
pub proof fn law_selections_are_deleted(editor: EditorModel, ranges: Seq<Range<usize>>)
    requires
        text::fits(editor.buffer.text),
        editor.has_selection(),
        buffer::in_text(editor.buffer.text, editor.selections()),
        are_spans(editor, ranges),
        exists|i: int| 0 <= i < ranges.len() && (#[trigger] ranges[i]).start < ranges[i].end,
    ensures
        are_deleted(editor, ranges, editor.after(BufferViewAction::Backspace)),
        are_deleted(editor, ranges, editor.after(BufferViewAction::Delete)),
{
    let i = choose|i: int| 0 <= i < ranges.len() && (#[trigger] ranges[i]).start < ranges[i].end;
    assert(is_span(editor.buffer.text, editor.selections()[i], ranges[i]));
    assert(editor.selections()[i].start != editor.selections()[i].end);
    assert(!editor.all_empty());
    lemma_deletes(editor, ranges);
}

/// Where there are only cursors, a backspace deletes just the code unit before each of
/// them.
pub proof fn law_backspace_deletes_before_cursors(editor: EditorModel, ranges: Seq<Range<usize>>)
    requires
        text::fits(editor.buffer.text),
        editor.has_selection(),
        buffer::in_text(editor.buffer.text, editor.selections()),
        forall|i: int|
            0 <= i < editor.selections().len() ==> (#[trigger] editor.selections()[i]).start
                == editor.selections()[i].end,
        are_before_cursors(editor, ranges),
    ensures
        are_deleted(editor, ranges, editor.after(BufferViewAction::Backspace)),
{
    let text = editor.buffer.text;
    let selected = editor.before_backspace();
    let wanted = editor.selections().map_values(
        |selection: Range<Point>|
            motion::extended(selection, movement::left_of(text, selection.end)->0),
    );
    assert(buffer::in_text(text, wanted)) by {
        assert forall|i: int| 0 <= i < wanted.len() implies text::is_position(
            text,
            (#[trigger] wanted[i]).start,
        ) && text::is_position(text, wanted[i].end) by {
            assert(text::is_position(text, editor.selections()[i].end));
            movement::law_left(text, editor.selections()[i].end);
        }
    }
    buffer::lemma_clip_in_text(text, wanted);
    assert(selected.selections() == wanted);
    assert forall|i: int| 0 <= i < ranges.len() implies is_span(
        text,
        selected.selections()[i],
        #[trigger] ranges[i],
    ) by {
        assert(text::is_position(text, editor.selections()[i].end));
        movement::law_left(text, editor.selections()[i].end);
    }
    lemma_deletes(selected, ranges);
}

/// Where there are only cursors, a delete deletes just the code unit behind each of
/// them.
pub proof fn law_delete_deletes_behind_cursors(editor: EditorModel, ranges: Seq<Range<usize>>)
    requires
        text::fits(editor.buffer.text),
        editor.has_selection(),
        buffer::in_text(editor.buffer.text, editor.selections()),
        forall|i: int|
            0 <= i < editor.selections().len() ==> (#[trigger] editor.selections()[i]).start
                == editor.selections()[i].end,
        are_behind_cursors(editor, ranges),
    ensures
        are_deleted(editor, ranges, editor.after(BufferViewAction::Delete)),
{
    let text = editor.buffer.text;
    let selected = editor.before_delete();
    let wanted = editor.selections().map_values(
        |selection: Range<Point>|
            motion::extended(selection, movement::right_of(text, selection.end)->0),
    );
    assert(buffer::in_text(text, wanted)) by {
        assert forall|i: int| 0 <= i < wanted.len() implies text::is_position(
            text,
            (#[trigger] wanted[i]).start,
        ) && text::is_position(text, wanted[i].end) by {
            assert(text::is_position(text, editor.selections()[i].end));
            movement::law_right(text, editor.selections()[i].end);
        }
    }
    buffer::lemma_clip_in_text(text, wanted);
    assert(selected.selections() == wanted);
    assert forall|i: int| 0 <= i < ranges.len() implies is_span(
        text,
        selected.selections()[i],
        #[trigger] ranges[i],
    ) by {
        assert(text::is_position(text, editor.selections()[i].end));
        movement::law_right(text, editor.selections()[i].end);
    }
    lemma_deletes(selected, ranges);
}

/// Where there is one cursor, to type a text is to type it in two parts, one after the
/// other, where its characters are of one byte and none is a newline.
pub proof fn law_typing_in_two_parts(
    editor: EditorModel,
    point: Point,
    first: String,
    second: String,
    both: String,
)
    requires
        text::fits(editor.buffer.text),
        text::is_position(editor.buffer.text, point),
        editor.has_set(),
        editor.selections() == seq![motion::cursor(point)],
        both@ == first@ + second@,
        is_plain(both@),
        editor.has_room_for(both@),
        editor.has_room_for(first@),
        editor.after(BufferViewAction::Edit { text: first }).has_room_for(second@),
    ensures
        ({
            let parts = editor.after(BufferViewAction::Edit { text: first }).after(
                BufferViewAction::Edit { text: second },
            );
            let whole = editor.after(BufferViewAction::Edit { text: both });
            &&& parts.buffer.text == whole.buffer.text
            &&& parts.selections() == whole.selections()
        }),
{
    let text = editor.buffer.text;
    let offset = text::offset_of(text, point);
    assert(is_plain(first@)) by {
        assert forall|i: int| 0 <= i < first@.len() implies (#[trigger] first@[i] as int) < 0x80
            && first@[i] != '\n' by {
            assert(both@[i] == first@[i]);
        }
    }
    assert(is_plain(second@)) by {
        assert forall|i: int| 0 <= i < second@.len() implies (#[trigger] second@[i] as int) < 0x80
            && second@[i] != '\n' by {
            assert(both@[first@.len() + i] == second@[i]);
        }
    }
    utf16::lemma_units_of_parts(first@, second@);
    lemma_plain_chars(first@);
    lemma_plain_chars(second@);
    let begun = editor.after(BufferViewAction::Edit { text: first });
    lemma_typed_at_cursor(editor, point, first@);
    lemma_typed_at_cursor(editor, point, both@);
    let next = text::point_at(begun.buffer.text, offset + first@.len());
    lemma_typed_at_cursor(begun, next, second@);
    text::lemma_offset_in_text(text, point);
    lemma_two_parts(text, offset, utf16::units_of(first@), utf16::units_of(second@));
}

/// To insert two parts, the second behind the first, is to insert both at once.
proof fn lemma_two_parts(text: Seq<u16>, offset: int, first: Seq<u16>, second: Seq<u16>)
    requires
        0 <= offset <= text.len(),
    ensures
        ({
            let begun = text.take(offset) + first + text.skip(offset);
            begun.take(offset + first.len()) + second + begun.skip(offset + first.len())
        }) == text.take(offset) + (first + second) + text.skip(offset),
{
    let begun = text.take(offset) + first + text.skip(offset);
    assert(begun.take(offset + first.len()) =~= text.take(offset) + first);
    assert(begun.skip(offset + first.len()) =~= text.skip(offset));
}

/// Typing at one cursor.
proof fn lemma_typed_at_cursor(editor: EditorModel, point: Point, chars: Seq<char>)
    requires
        text::fits(editor.buffer.text),
        text::is_position(editor.buffer.text, point),
        editor.has_set(),
        editor.selections() == seq![motion::cursor(point)],
        is_plain(chars),
        editor.has_room_for(chars),
    ensures
        ({
            let text = editor.buffer.text;
            let offset = text::offset_of(text, point);
            let after = editor.edited(chars);
            let behind = text::point_at(after.buffer.text, offset + chars.len());
            &&& after.buffer.text == text.take(offset) + utf16::units_of(chars) + text.skip(offset)
            &&& text::fits(after.buffer.text)
            &&& after.has_set()
            &&& text::is_position(after.buffer.text, behind)
            &&& text::offset_of(after.buffer.text, behind) == offset + chars.len()
            &&& after.selections() == seq![motion::cursor(behind)]
        }),
{
    let text = editor.buffer.text;
    let offset = text::offset_of(text, point);
    let units = utf16::units_of(chars);
    let after = editor.edited(chars);
    text::lemma_offset_in_text(text, point);
    let range = Range { start: offset as usize, end: offset as usize };
    let ranges = seq![range];
    assert(is_span(text, editor.selections()[0], ranges[0]));
    assert(are_spans(editor, ranges));
    lemma_typing(editor, chars, ranges, 0);
    lemma_typing_plain(editor, chars, ranges, 0);
    lemma_replaced_start(editor, chars, ranges, 0);
    lemma_plain_chars(chars);
    assert(ranges.drop_last() =~= Seq::<Range<usize>>::empty());
    assert(ranges.take(1) =~= ranges);
    assert(buffer::with_replaced(text.take(offset), ranges.drop_last(), units) == text.take(
        offset,
    ));
    assert(text.take(offset).take(offset) =~= text.take(offset));
    assert(text.take(offset).skip(offset) =~= Seq::<u16>::empty());
    assert(buffer::with_replaced(text.take(offset), ranges, units) =~= text.take(offset) + units);
    let cursor = after.selections()[0];
    text::lemma_point_of_offset(after.buffer.text, cursor.end);
    assert(after.selections() =~= seq![motion::cursor(cursor.end)]);
}

} // verus!
