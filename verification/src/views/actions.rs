//! What the actions of a user come to.

use std::ops::Range;

use vstd::prelude::*;

use crate::buffer::{self, OperationModel, SelectionSetId};
use crate::movement;
use crate::point::Point;
use crate::sequences;
use crate::text;
use crate::utf16;
use crate::views::editor::{BufferViewAction, BufferViewModel, EditorModel};
use crate::views::edits;
use crate::views::motion;

verus! {

/// Whether a position is one code unit before another, or both are at the start.
pub open spec fn is_one_left(text: Seq<u16>, before: Point, point: Point) -> bool {
    &&& text::is_position(text, before)
    &&& text::offset_of(text, point) > 0 ==> text::offset_of(text, before) == text::offset_of(
        text,
        point,
    ) - 1
    &&& text::offset_of(text, point) == 0 ==> text::offset_of(text, before) == 0
}

/// Whether a position is one code unit behind another, or both are at the end.
pub open spec fn is_one_right(text: Seq<u16>, after: Point, point: Point) -> bool {
    &&& text::is_position(text, after)
    &&& text::offset_of(text, point) < text.len() ==> text::offset_of(text, after)
        == text::offset_of(text, point) + 1
    &&& text::offset_of(text, point) == text.len() ==> text::offset_of(text, after) == text.len()
}

/// Whether a point is in a row, at a column or at the end of the row where that comes
/// first.
pub open spec fn is_in_row(text: Seq<u16>, point: Point, row: int, column: u32) -> bool {
    &&& point.row == row
    &&& column <= text::rows(text)[row].len() ==> point.column == column
    &&& column > text::rows(text)[row].len() ==> point.column == text::rows(text)[row].len()
}

/// Whether a position is one row above another, at some column, or at the start of the
/// text where there is no row above.
pub open spec fn is_one_up(text: Seq<u16>, over: Point, point: Point, column: u32) -> bool {
    if point.row == 0 {
        over.row == 0 && over.column == 0
    } else {
        is_in_row(text, over, point.row - 1, column)
    }
}

/// Whether a position is one row below another, at some column, or at the end of the
/// text where there is no row below.
pub open spec fn is_one_down(text: Seq<u16>, under: Point, point: Point, column: u32) -> bool {
    if point.row == text::rows(text).len() - 1 {
        under.row == point.row && under.column == text::rows(text)[point.row as int].len()
    } else {
        is_in_row(text, under, point.row + 1, column)
    }
}

/// Whether an action, as its name says, makes one selection of another.
pub open spec fn is_moved(
    text: Seq<u16>,
    action: BufferViewAction,
    before: Range<Point>,
    after: Range<Point>,
) -> bool {
    let head = before.end;
    let column = before.start.column;
    let is_cursor = after.start == after.end;
    let is_extended = after.start == before.start;
    match action {
        BufferViewAction::MoveLeft => is_cursor && if before.start == head {
            is_one_left(text, after.end, head)
        } else {
            after.end == head
        },
        BufferViewAction::SelectLeft => is_extended && is_one_left(text, after.end, head),
        BufferViewAction::MoveRight => is_cursor && if before.start == head {
            is_one_right(text, after.end, head)
        } else {
            after.end == head
        },
        BufferViewAction::SelectRight => is_extended && is_one_right(text, after.end, head),
        BufferViewAction::MoveUp => is_cursor && is_one_up(text, after.end, head, column),
        BufferViewAction::SelectUp => is_extended && is_one_up(text, after.end, head, column),
        BufferViewAction::MoveDown => is_cursor && is_one_down(text, after.end, head, column),
        BufferViewAction::SelectDown => is_extended && is_one_down(text, after.end, head, column),
        BufferViewAction::MoveToBeginningOfWord => is_cursor && movement::word_start(text, head)
            == Some(after.end),
        BufferViewAction::SelectToBeginningOfWord => is_extended && movement::word_start(
            text,
            head,
        ) == Some(after.end),
        BufferViewAction::MoveToEndOfWord => is_cursor && movement::word_end(text, head) == Some(
            after.end,
        ),
        BufferViewAction::SelectToEndOfWord => is_extended && movement::word_end(text, head)
            == Some(after.end),
        BufferViewAction::SelectWord => movement::word_start(text, head) == Some(after.start)
            && movement::word_end(text, head) == Some(after.end),
        BufferViewAction::MoveToBeginningOfLine => is_cursor && after.end.row == head.row
            && after.end.column == 0,
        BufferViewAction::SelectToBeginningOfLine => is_extended && after.end.row == head.row
            && after.end.column == 0,
        BufferViewAction::MoveToEndOfLine => is_cursor && after.end.row == head.row
            && after.end.column == text::rows(text)[head.row as int].len(),
        BufferViewAction::SelectToEndOfLine => is_extended && after.end.row == head.row
            && after.end.column == text::rows(text)[head.row as int].len(),
        BufferViewAction::SelectLine => {
            &&& after.start.row == head.row
            &&& after.start.column == 0
            &&& head.row < text::rows(text).len() - 1 ==> after.end.row == head.row + 1
                && after.end.column == 0
            &&& head.row == text::rows(text).len() - 1 ==> after.end.row == head.row
                && after.end.column == text::rows(text)[head.row as int].len()
        },
        BufferViewAction::MoveToTop => is_cursor && after.end.row == 0 && after.end.column == 0,
        BufferViewAction::SelectToTop => is_extended && after.end.row == 0 && after.end.column
            == 0,
        BufferViewAction::MoveToBottom => is_cursor && text::is_position(text, after.end)
            && text::offset_of(text, after.end) == text.len(),
        BufferViewAction::SelectToBottom => is_extended && text::is_position(text, after.end)
            && text::offset_of(text, after.end) == text.len(),
        BufferViewAction::SelectTo { row, column } => {
            &&& is_extended
            &&& row < text::rows(text).len() ==> is_in_row(text, after.end, row as int, column)
            &&& row >= text::rows(text).len() ==> text::is_position(text, after.end)
                && text::offset_of(text, after.end) == text.len()
        },
        _ => false,
    }
}

/// Whether an action moves or extends each selection of a view.
pub open spec fn is_motion(action: BufferViewAction) -> bool {
    match action {
        BufferViewAction::UpdateScrollTop
        | BufferViewAction::SetDimensions { .. }
        | BufferViewAction::Edit { .. }
        | BufferViewAction::Backspace
        | BufferViewAction::Delete
        | BufferViewAction::AddSelectionAbove
        | BufferViewAction::AddSelectionBelow
        | BufferViewAction::SetCursorPosition { .. } => false,
        _ => true,
    }
}

/// A point that is taken for a position: the point itself in a row that has it, the end
/// of the row behind that, and the end of the text behind the last row.
proof fn lemma_clipped(text: Seq<u16>, point: Point)
    requires
        text::fits(text),
    ensures
        point.row < text::rows(text).len() ==> is_in_row(
            text,
            text::clipped(text, point),
            point.row as int,
            point.column,
        ),
        point.row >= text::rows(text).len() ==> text::offset_of(text, text::clipped(text, point))
            == text.len(),
        text::is_position(text, text::clipped(text, point)),
        text::is_position(text, point) ==> text::clipped(text, point) == point,
{
    text::lemma_offset_in_text(text, point);
    text::lemma_point_at(text, text::offset_of(text, point));
    if point.row < text::rows(text).len() {
        let row = point.row as int;
        text::lemma_row_in_text(text, row);
        let len = text::rows(text)[row].len();
        let place = if point.column <= len {
            point
        } else {
            Point { row: point.row, column: len as u32 }
        };
        assert(text::offset_of(text, place) == text::offset_of(text, point));
        text::lemma_point_of_offset(text, place);
    }
}

/// Steps left and right.
proof fn lemma_moves_sideways(text: Seq<u16>, action: BufferViewAction, before: Range<Point>)
    requires
        text::fits(text),
        text::is_position(text, before.start),
        text::is_position(text, before.end),
        action is MoveLeft || action is SelectLeft || action is MoveRight || action is SelectRight,
    ensures
        is_moved(text, action, before, (action.motion()->0).applied(text, before)),
{
    let head = before.end;
    movement::law_left(text, head);
    movement::law_right(text, head);
    text::lemma_offset_in_text(text, head);
}

/// Steps up and down.
proof fn lemma_moves_up_and_down(text: Seq<u16>, action: BufferViewAction, before: Range<Point>)
    requires
        text::fits(text),
        text::is_position(text, before.start),
        text::is_position(text, before.end),
        action is MoveUp || action is SelectUp || action is MoveDown || action is SelectDown,
    ensures
        is_moved(text, action, before, (action.motion()->0).applied(text, before)),
{
    let head = before.end;
    let goal_column = Some(before.start.column);
    text::lemma_rows_len(text);
    text::lemma_row_in_text(text, head.row as int);
    if head.row > 0 {
        movement::law_up(text, head, goal_column);
    }
    if head.row < text::rows(text).len() - 1 {
        movement::law_down(text, head, goal_column);
    }
}

/// Motions by a word.
proof fn lemma_moves_by_word(text: Seq<u16>, action: BufferViewAction, before: Range<Point>)
    requires
        text::fits(text),
        text::is_position(text, before.start),
        text::is_position(text, before.end),
        action is MoveToBeginningOfWord || action is SelectToBeginningOfWord
            || action is MoveToEndOfWord || action is SelectToEndOfWord || action is SelectWord,
    ensures
        is_moved(text, action, before, (action.motion()->0).applied(text, before)),
{
    let head = before.end;
    movement::law_word_is_around(text, head);
}

/// Motions to the ends of a row or of the text.
proof fn lemma_moves_to_ends(text: Seq<u16>, action: BufferViewAction, before: Range<Point>)
    requires
        text::fits(text),
        text::is_position(text, before.start),
        text::is_position(text, before.end),
        action is MoveToBeginningOfLine || action is SelectToBeginningOfLine
            || action is MoveToEndOfLine || action is SelectToEndOfLine || action is SelectLine
            || action is MoveToTop || action is SelectToTop || action is MoveToBottom
            || action is SelectToBottom,
    ensures
        is_moved(text, action, before, (action.motion()->0).applied(text, before)),
{
    let head = before.end;
    text::lemma_rows_len(text);
    text::lemma_row_in_text(text, head.row as int);
    text::lemma_row_in_text(text, text::rows(text).len() - 1);
}

/// One selection makes a motion as the action that asks for it says.
proof fn lemma_moved(text: Seq<u16>, action: BufferViewAction, before: Range<Point>)
    requires
        text::fits(text),
        text::is_position(text, before.start),
        text::is_position(text, before.end),
        is_motion(action),
    ensures
        action.motion() is Some,
        is_moved(
            text,
            action,
            before,
            buffer::clip_range(text, (action.motion()->0).applied(text, before)),
        ),
{
    let motion = action.motion()->0;
    let moved = motion.applied(text, before);
    lemma_clipped(text, moved.start);
    lemma_clipped(text, moved.end);
    if !(action is SelectTo) {
        motion::law_motion_stays_in_text(text, motion, before);
        assert(buffer::clip_range(text, moved) == moved);
        match action {
            BufferViewAction::MoveLeft
            | BufferViewAction::SelectLeft
            | BufferViewAction::MoveRight
            | BufferViewAction::SelectRight => lemma_moves_sideways(text, action, before),
            BufferViewAction::MoveUp
            | BufferViewAction::SelectUp
            | BufferViewAction::MoveDown
            | BufferViewAction::SelectDown => lemma_moves_up_and_down(text, action, before),
            BufferViewAction::MoveToBeginningOfWord
            | BufferViewAction::SelectToBeginningOfWord
            | BufferViewAction::MoveToEndOfWord
            | BufferViewAction::SelectToEndOfWord
            | BufferViewAction::SelectWord => lemma_moves_by_word(text, action, before),
            _ => lemma_moves_to_ends(text, action, before),
        }
    }
}

/// An action that moves or extends selections does so to each of them, one by one, and
/// leaves the text as it is.
pub proof fn law_each_selection_moves(editor: EditorModel, action: BufferViewAction, index: int)
    requires
        text::fits(editor.buffer.text),
        editor.has_set(),
        buffer::in_text(editor.buffer.text, editor.selections()),
        is_motion(action),
        0 <= index < editor.selections().len(),
    ensures
        editor.after(action).buffer.text == editor.buffer.text,
        editor.after(action).selections().len() == editor.selections().len(),
        is_moved(
            editor.buffer.text,
            action,
            editor.selections()[index],
            editor.after(action).selections()[index],
        ),
{
    assert(text::is_position(editor.buffer.text, editor.selections()[index].start));
    lemma_moved(editor.buffer.text, action, editor.selections()[index]);
}

/// Whether a view is asked to bring just a point into sight: at once where it has a
/// height, and else once it is mounted.
pub open spec fn is_followed(before: EditorModel, after: EditorModel, point: Point) -> bool {
    let request = if before.view.has_height {
        after.view.scroll
    } else {
        after.view.vertical_autoscroll
    };
    &&& request matches Some(request) && request.range.start == point && request.range.end == point
        && !request.center
    &&& before.view.has_height ==> {
        &&& after.view.horizontal_autoscroll matches Some(range)
        &&& range.start == point
        &&& range.end == point
        &&& after.view.vertical_autoscroll == before.view.vertical_autoscroll
    }
    &&& !before.view.has_height ==> after.view.horizontal_autoscroll is None && after.view.scroll
        == before.view.scroll
}

/// After an action that moves or extends selections, the view follows the head of the
/// last of them, unless a word or a row was selected. All other sets, the selections of
/// others and the number of the set stay as they are, and everybody who observes the
/// buffer has something to see.
pub proof fn law_view_follows_the_last_selection(
    editor: EditorModel,
    action: BufferViewAction,
    other: SelectionSetId,
)
    requires
        editor.has_selection(),
        is_motion(action),
        other != editor.view.selection_set_id,
    ensures
        !(action is SelectWord || action is SelectLine) ==> is_followed(
            editor,
            editor.after(action),
            editor.after(action).selections().last().end,
        ),
        action is SelectWord || action is SelectLine ==> editor.after(action).view == editor.view,
        editor.after(action).view.selection_set_id == editor.view.selection_set_id,
        editor.after(action).view.has_height == editor.view.has_height,
        editor.after(action).view.unseen == editor.view.unseen,
        editor.after(action).buffer.remote == editor.buffer.remote,
        editor.after(action).buffer.local.contains_key(other) == editor.buffer.local.contains_key(
            other,
        ),
        editor.after(action).buffer.local[other] == editor.buffer.local[other],
        editor.after(action).buffer.unseen.len() == editor.buffer.unseen.len(),
        forall|i: int|
            0 <= i < editor.buffer.unseen.len() ==> #[trigger] editor.after(
                action,
            ).buffer.unseen[i],
{
}

/// A cursor that is set replaces all selections of a view by one, at the point itself in
/// a row that has it, at the end of the row behind that, and at the end of the text
/// behind the last row. The view follows it where that is asked for.
pub proof fn law_cursor_is_set(editor: EditorModel, row: u32, column: u32, autoscroll: bool)
    requires
        text::fits(editor.buffer.text),
        editor.has_set(),
    ensures
        ({
            let text = editor.buffer.text;
            let after = editor.after(
                BufferViewAction::SetCursorPosition { row, column, autoscroll },
            );
            let cursor = after.selections()[0];
            &&& after.buffer.text == text
            &&& after.selections().len() == 1
            &&& cursor.start == cursor.end
            &&& row < text::rows(text).len() ==> is_in_row(text, cursor.end, row as int, column)
            &&& row >= text::rows(text).len() ==> text::is_position(text, cursor.end)
                && text::offset_of(text, cursor.end) == text.len()
            &&& autoscroll ==> is_followed(editor, after, cursor.end)
            &&& !autoscroll ==> after.view == editor.view
        }),
{
    let text = editor.buffer.text;
    let point = Point { row, column };
    let end = text::end_point(text);
    text::lemma_rows_len(text);
    text::lemma_row_in_text(text, text::rows(text).len() - 1);
    lemma_clipped(text, point.spec_min(end));
    lemma_clipped(text, end);
}

/// Whether a selection in one row takes the columns of another in a row, as far as the
/// row has them.
pub open spec fn is_copy(
    text: Seq<u16>,
    selection: Range<Point>,
    row: int,
    copy: Range<Point>,
) -> bool {
    &&& is_in_row(text, copy.start, row, selection.start.column)
    &&& is_in_row(text, copy.end, row, selection.end.column)
}

/// Whether a row can take a copy of a selection: one of a cursor unless the row is empty
/// and the cursor is not at the start of its own, and one of more than that where the
/// row has some of it.
pub open spec fn takes_copy(text: Seq<u16>, selection: Range<Point>, row: int) -> bool {
    let len = text::rows(text)[row].len();
    if selection.start == selection.end {
        selection.end.column == 0 || len > 0
    } else {
        selection.start.column < len || selection.end.column < len
    }
}

/// Whether a selection is kept with a copy in the nearest row above that can take one.
/// Nothing is left of a selection that has no such row or is in several rows.
pub open spec fn is_copied_above(
    text: Seq<u16>,
    selection: Range<Point>,
    kept: Seq<Range<Point>>,
) -> bool {
    let row = selection.start.row as int;
    if selection.end.row == row && exists|above: int|
        0 <= above < row && #[trigger] takes_copy(text, selection, above) {
        exists|above: int|
            {
                &&& 0 <= above < row
                &&& #[trigger] takes_copy(text, selection, above)
                &&& forall|between: int|
                    above < between < row ==> !(#[trigger] takes_copy(text, selection, between))
                &&& kept.len() == 2
                &&& kept[0] == selection
                &&& is_copy(text, selection, above, kept[1])
            }
    } else {
        kept.len() == 0
    }
}

/// Whether a selection is kept with a copy in the nearest row below that can take one.
/// Nothing is left of a selection that has no such row or is in several rows.
pub open spec fn is_copied_below(
    text: Seq<u16>,
    selection: Range<Point>,
    kept: Seq<Range<Point>>,
) -> bool {
    let row = selection.start.row as int;
    let count = text::rows(text).len();
    if selection.end.row == row && exists|below: int|
        row < below < count && #[trigger] takes_copy(text, selection, below) {
        exists|below: int|
            {
                &&& row < below < count
                &&& #[trigger] takes_copy(text, selection, below)
                &&& forall|between: int|
                    row < between < below ==> !(#[trigger] takes_copy(text, selection, between))
                &&& kept.len() == 2
                &&& kept[0] == selection
                &&& is_copy(text, selection, below, kept[1])
            }
    } else {
        kept.len() == 0
    }
}

/// A copy takes the columns of the selection, and has room where the row can take it.
proof fn lemma_copied(text: Seq<u16>, selection: Range<Point>, row: int)
    requires
        text::fits(text),
        0 <= row < text::rows(text).len(),
        selection.start.row == selection.end.row,
    ensures
        is_copy(text, selection, row, edits::copied(text, selection, row)),
        edits::has_room(text, selection, row) == takes_copy(text, selection, row),
{
    text::lemma_rows_len(text);
    text::lemma_row_in_text(text, row);
}

proof fn lemma_room_above(text: Seq<u16>, selection: Range<Point>, row: int)
    requires
        text::fits(text),
        0 <= row <= text::rows(text).len(),
        selection.start.row == selection.end.row,
    ensures
        match edits::room_above(text, selection, row) {
            Some(found) => 0 <= found < row && takes_copy(text, selection, found) && forall|
                between: int,
            |
                found < between < row ==> !(#[trigger] takes_copy(text, selection, between)),
            None => forall|above: int|
                0 <= above < row ==> !(#[trigger] takes_copy(text, selection, above)),
        },
    decreases row,
{
    if row > 0 {
        lemma_copied(text, selection, row - 1);
        lemma_room_above(text, selection, row - 1);
    }
}

proof fn lemma_room_below(text: Seq<u16>, selection: Range<Point>, row: int)
    requires
        text::fits(text),
        0 <= row < text::rows(text).len(),
        selection.start.row == selection.end.row,
    ensures
        match edits::room_below(text, selection, row) {
            Some(found) => row < found < text::rows(text).len() && takes_copy(
                text,
                selection,
                found,
            ) && forall|between: int|
                row < between < found ==> !(#[trigger] takes_copy(text, selection, between)),
            None => forall|below: int|
                row < below < text::rows(text).len() ==> !(#[trigger] takes_copy(
                    text,
                    selection,
                    below,
                )),
        },
    decreases text::rows(text).len() - row,
{
    if row < text::rows(text).len() - 1 {
        lemma_copied(text, selection, row + 1);
        lemma_room_below(text, selection, row + 1);
    }
}

proof fn lemma_copies_above(text: Seq<u16>, selections: Seq<Range<Point>>) -> (parts: Seq<
    Seq<Range<Point>>,
>)
    requires
        text::fits(text),
        buffer::in_text(text, selections),
    ensures
        parts.len() == selections.len(),
        parts.flatten() == edits::with_copies_above(text, selections),
        forall|i: int|
            0 <= i < parts.len() ==> is_copied_above(text, selections[i], #[trigger] parts[i]),
    decreases selections.len(),
{
    if selections.len() == 0 {
        let parts = Seq::<Seq<Range<Point>>>::empty();
        assert(parts.flatten() =~= Seq::empty());
        parts
    } else {
        let last = selections.last();
        let row = last.start.row as int;
        assert(text::is_position(text, selections[selections.len() - 1].start));
        let before = lemma_copies_above(text, selections.drop_last());
        let part = if last.start.row == last.end.row {
            edits::with_copy(text, last, edits::room_above(text, last, row))
        } else {
            Seq::empty()
        };
        if last.start.row == last.end.row {
            lemma_room_above(text, last, row);
            if let Some(found) = edits::room_above(text, last, row) {
                lemma_copied(text, last, found);
            }
        }
        before.lemma_flatten_push(part);
        before.push(part)
    }
}

proof fn lemma_copies_below(text: Seq<u16>, selections: Seq<Range<Point>>) -> (parts: Seq<
    Seq<Range<Point>>,
>)
    requires
        text::fits(text),
        buffer::in_text(text, selections),
    ensures
        parts.len() == selections.len(),
        parts.flatten() == edits::with_copies_below(text, selections),
        forall|i: int|
            0 <= i < parts.len() ==> is_copied_below(text, selections[i], #[trigger] parts[i]),
    decreases selections.len(),
{
    if selections.len() == 0 {
        let parts = Seq::<Seq<Range<Point>>>::empty();
        assert(parts.flatten() =~= Seq::empty());
        parts
    } else {
        let last = selections.last();
        let row = last.start.row as int;
        assert(text::is_position(text, selections[selections.len() - 1].start));
        let before = lemma_copies_below(text, selections.drop_last());
        let part = if last.start.row == last.end.row {
            edits::with_copy(text, last, edits::room_below(text, last, row))
        } else {
            Seq::empty()
        };
        if last.start.row == last.end.row {
            lemma_room_below(text, last, row);
            if let Some(found) = edits::room_below(text, last, row) {
                lemma_copied(text, last, found);
            }
        }
        before.lemma_flatten_push(part);
        before.push(part)
    }
}

/// Adding selections above keeps each selection, with a copy in the nearest row above
/// that can take one, in their order; and the view follows the last.
pub proof fn law_selections_are_added_above(editor: EditorModel)
    requires
        text::fits(editor.buffer.text),
        editor.has_set(),
        buffer::in_text(editor.buffer.text, editor.selections()),
    ensures
        ({
            let text = editor.buffer.text;
            let after = editor.after(BufferViewAction::AddSelectionAbove);
            &&& after.buffer.text == text
            &&& is_followed(editor, after, after.selections().last().end)
            &&& exists|parts: Seq<Seq<Range<Point>>>|
                {
                    &&& parts.len() == editor.selections().len()
                    &&& after.selections() == #[trigger] parts.flatten()
                    &&& forall|i: int|
                        0 <= i < parts.len() ==> is_copied_above(
                            text,
                            editor.selections()[i],
                            #[trigger] parts[i],
                        )
                }
        }),
{
    let text = editor.buffer.text;
    let parts = lemma_copies_above(text, editor.selections());
    edits::law_copies_lie_in_text(text, editor.selections());
    buffer::lemma_clip_in_text(text, edits::with_copies_above(text, editor.selections()));
    assert(editor.after(BufferViewAction::AddSelectionAbove).selections() == parts.flatten());
}

/// Adding selections below keeps each selection, with a copy in the nearest row below
/// that can take one, in their order; and the view follows the last.
pub proof fn law_selections_are_added_below(editor: EditorModel)
    requires
        text::fits(editor.buffer.text),
        editor.has_set(),
        buffer::in_text(editor.buffer.text, editor.selections()),
    ensures
        ({
            let text = editor.buffer.text;
            let after = editor.after(BufferViewAction::AddSelectionBelow);
            &&& after.buffer.text == text
            &&& is_followed(editor, after, after.selections().last().end)
            &&& exists|parts: Seq<Seq<Range<Point>>>|
                {
                    &&& parts.len() == editor.selections().len()
                    &&& after.selections() == #[trigger] parts.flatten()
                    &&& forall|i: int|
                        0 <= i < parts.len() ==> is_copied_below(
                            text,
                            editor.selections()[i],
                            #[trigger] parts[i],
                        )
                }
        }),
{
    let text = editor.buffer.text;
    let parts = lemma_copies_below(text, editor.selections());
    edits::law_copies_lie_in_text(text, editor.selections());
    buffer::lemma_clip_in_text(text, edits::with_copies_below(text, editor.selections()));
    assert(editor.after(BufferViewAction::AddSelectionBelow).selections() == parts.flatten());
}

/// Whether an action has to do with where selections are and leaves the text as it is.
pub open spec fn only_selects(action: BufferViewAction) -> bool {
    is_motion(action) || action is AddSelectionAbove || action is AddSelectionBelow
        || action is SetCursorPosition
}

/// When an action leaves a view with other selections, the peers are told just that: the
/// set and where its selections now are.
pub proof fn law_peers_are_told_of_selections(editor: EditorModel, action: BufferViewAction)
    requires
        only_selects(action),
    ensures
        ({
            let after = editor.after(action);
            let told = after.buffer.outgoing;
            &&& told.len() == editor.buffer.outgoing.len() + 1
            &&& told.drop_last() == editor.buffer.outgoing
            &&& told.last() == (OperationModel::SetSelections {
                set_id: editor.view.selection_set_id,
                ranges: after.selections(),
            })
            &&& after.buffer.id == editor.buffer.id
            &&& after.buffer.next_set_id == editor.buffer.next_set_id
        }),
{
    assert(editor.after(action).buffer.outgoing.drop_last() =~= editor.buffer.outgoing);
}

/// When something is typed, the peers are told which stretches of the text it replaces,
/// and then where the cursors are. The view follows the last of them.
pub proof fn law_peers_are_told_of_typing(
    editor: EditorModel,
    typed: String,
    ranges: Seq<Range<usize>>,
)
    requires
        text::fits(editor.buffer.text),
        editor.has_selection(),
        buffer::in_text(editor.buffer.text, editor.selections()),
        ranges.len() == editor.selections().len(),
        forall|i: int|
            0 <= i < ranges.len() ==> {
                let selection = editor.selections()[i];
                let start = text::offset_of(editor.buffer.text, selection.start);
                let end = text::offset_of(editor.buffer.text, selection.end);
                &&& start <= end ==> (#[trigger] ranges[i]).start == start && ranges[i].end == end
                &&& end < start ==> ranges[i].start == end && ranges[i].end == start
            },
    ensures
        ({
            let after = editor.after(BufferViewAction::Edit { text: typed });
            let before = editor.buffer.outgoing;
            let told = after.buffer.outgoing;
            &&& told.len() == before.len() + 2
            &&& told.take(before.len() as int) == before
            &&& told[before.len() as int] == (OperationModel::Edit {
                old_ranges: ranges,
                text: utf16::units_of(typed@),
            })
            &&& told.last() == (OperationModel::SetSelections {
                set_id: editor.view.selection_set_id,
                ranges: after.selections(),
            })
            &&& is_followed(editor, after, after.selections().last().end)
            &&& forall|i: int| 0 <= i < after.buffer.unseen.len() ==> after.buffer.unseen[i]
        }),
{
    let text = editor.buffer.text;
    let units = utf16::units_of(typed@);
    let offsets = editor.selected_offsets();
    assert forall|i: int| 0 <= i < ranges.len() implies offsets[i] == #[trigger] ranges[i] by {
        let selection = editor.selections()[i];
        text::lemma_offset_in_text(text, selection.start);
        text::lemma_offset_in_text(text, selection.end);
        text::lemma_offsets_ordered(text, selection.end, selection.start);
    }
    assert(offsets =~= ranges);
    buffer::law_edit_keeps_the_rest(editor.buffer, ranges, units);
    let after = editor.after(BufferViewAction::Edit { text: typed });
    assert(after.buffer.outgoing.take(editor.buffer.outgoing.len() as int)
        =~= editor.buffer.outgoing);
}

/// A view that is scrolled by hand follows nothing any more, and has something to see.
/// Nothing else changes.
pub proof fn law_scrolling_by_hand(editor: EditorModel)
    ensures
        ({
            let after = editor.after(BufferViewAction::UpdateScrollTop);
            &&& after.buffer == editor.buffer
            &&& after.view.vertical_autoscroll is None
            &&& after.view.horizontal_autoscroll is None
            &&& after.view.scroll == editor.view.scroll
            &&& after.view.has_height == editor.view.has_height
            &&& after.view.selection_set_id == editor.view.selection_set_id
            &&& after.view.unseen.len() == editor.view.unseen.len()
            &&& forall|i: int|
                0 <= i < after.view.unseen.len() ==> #[trigger] after.view.unseen[i]
        }),
{
}

/// A view that is given its measures has a height, brings the head of its last selection
/// into sight, and has something to see. The buffer stays as it is.
pub proof fn law_dimensions_are_set(editor: EditorModel, width: u64, height: u64)
    requires
        editor.has_selection(),
    ensures
        ({
            let after = editor.after(BufferViewAction::SetDimensions { width, height });
            let head = editor.selections().last().end;
            &&& after.buffer == editor.buffer
            &&& after.view.has_height
            &&& after.view.selection_set_id == editor.view.selection_set_id
            &&& after.view.scroll matches Some(request) && request.range.start == head
                && request.range.end == head && !request.center
            &&& after.view.horizontal_autoscroll matches Some(range) && range.start == head
                && range.end == head
            &&& after.view.unseen.len() == editor.view.unseen.len()
            &&& forall|i: int|
                0 <= i < after.view.unseen.len() ==> #[trigger] after.view.unseen[i]
        }),
{
}

/// A view that is given another width brings the head of its last selection into sight,
/// and has something to see; one that is given a height has it from then on, and brings
/// the head of its last selection into sight at once. The buffer stays as it is.
pub proof fn law_measures_are_taken_in(editor: EditorModel)
    requires
        editor.has_selection(),
    ensures
        ({
            let head = editor.selections().last().end;
            let resized = editor.resized();
            let raised = editor.with_height();
            &&& resized.buffer == editor.buffer
            &&& is_followed(editor, resized, head)
            &&& resized.view.has_height == editor.view.has_height
            &&& resized.view.selection_set_id == editor.view.selection_set_id
            &&& resized.view.unseen.len() == editor.view.unseen.len()
            &&& forall|i: int|
                0 <= i < resized.view.unseen.len() ==> #[trigger] resized.view.unseen[i]
            &&& raised.buffer == editor.buffer
            &&& raised.view.has_height
            &&& raised.view.scroll matches Some(request) && request.range.start == head
                && request.range.end == head && !request.center
            &&& raised.view.vertical_autoscroll == editor.view.vertical_autoscroll
            &&& raised.view.selection_set_id == editor.view.selection_set_id
            &&& raised.view.unseen.len() == editor.view.unseen.len()
            &&& forall|i: int|
                0 <= i < raised.view.unseen.len() ==> #[trigger] raised.view.unseen[i]
        }),
{
}

/// A view with a height that is asked to bring a range into sight is to scroll to just
/// that range, in the middle where that is asked for, and sideways too. Nothing else
/// changes.
pub proof fn law_range_is_brought_into_sight(
    view: BufferViewModel,
    range: Range<Point>,
    center: bool,
)
    requires
        view.has_height,
    ensures
        ({
            let after = view.scrolling_to(range, center);
            &&& after.scroll matches Some(request) && request.range == range && request.center
                == center
            &&& after.horizontal_autoscroll == Some(range)
            &&& after.vertical_autoscroll == view.vertical_autoscroll
            &&& after.has_height
            &&& after.selection_set_id == view.selection_set_id
            &&& after.unseen == view.unseen
        }),
{
}

/// What a view without a height was last asked to bring into sight is brought there when
/// it is mounted, and just that.
pub proof fn law_mounting_brings_into_sight(
    view: BufferViewModel,
    range: Range<Point>,
    center: bool,
)
    requires
        !view.has_height,
    ensures
        view.scrolling_to(range, center).scroll == view.scroll,
        ({
            let mounted = view.scrolling_to(range, center).mounted();
            &&& mounted.has_height
            &&& mounted.scroll matches Some(request) && request.range == range && request.center
                == center
            &&& mounted.horizontal_autoscroll == Some(range)
            &&& mounted.vertical_autoscroll is None
            &&& mounted.mounted() == mounted
            &&& mounted.unseen == view.unseen
            &&& mounted.selection_set_id == view.selection_set_id
        }),
{
}

/// A selection that is added is in a new set of its own, alone, as far as the text goes.
/// The peers are told of it, no other set is touched, and the view follows the last of its
/// own selections.
pub proof fn law_selection_set_is_added(
    editor: EditorModel,
    start: Point,
    end: Point,
    other: SelectionSetId,
)
    requires
        text::fits(editor.buffer.text),
        editor.has_selection(),
        editor.view.selection_set_id != editor.buffer.next_set_id,
        editor.buffer.next_set_id < u64::MAX,
        other != editor.buffer.next_set_id,
    ensures
        ({
            let text = editor.buffer.text;
            let id = editor.buffer.next_set_id;
            let after = editor.with_selection(start, end);
            &&& after.buffer.text == text
            &&& after.buffer.next_set_id == id + 1
            &&& after.buffer.local.contains_key(id)
            &&& after.buffer.local[id].len() == 1
            &&& buffer::is_kept(text, start, after.buffer.local[id][0].start)
            &&& buffer::is_kept(text, end, after.buffer.local[id][0].end)
            &&& after.buffer.local.contains_key(other) == editor.buffer.local.contains_key(other)
            &&& after.buffer.local[other] == editor.buffer.local[other]
            &&& after.buffer.remote == editor.buffer.remote
            &&& after.buffer.outgoing.len() == editor.buffer.outgoing.len() + 1
            &&& after.buffer.outgoing.drop_last() == editor.buffer.outgoing
            &&& after.buffer.outgoing.last() == (OperationModel::SetSelections {
                set_id: id,
                ranges: after.buffer.local[id],
            })
            &&& after.view.selection_set_id == editor.view.selection_set_id
            &&& is_followed(editor, after, editor.selections().last().end)
        }),
{
    let text = editor.buffer.text;
    let last = text::end_point(text);
    text::lemma_rows_len(text);
    text::lemma_row_in_text(text, text::rows(text).len() - 1);
    lemma_clipped(text, start.spec_min(last));
    lemma_clipped(text, end.spec_min(last));
    assert(editor.with_selection(start, end).buffer.outgoing.drop_last()
        =~= editor.buffer.outgoing);
}

/// With a selection, a view is ready for every action. Without one, it is ready for those
/// that make no use of one.
pub proof fn law_view_is_ready(editor: EditorModel, action: BufferViewAction)
    ensures
        editor.has_selection() ==> editor.is_ready_for(action),
        action is UpdateScrollTop ==> editor.is_ready_for(action),
        editor.has_set() && (action is SelectWord || action is SelectLine
            || action is SetCursorPosition) ==> editor.is_ready_for(action),
{
}

/// There is room for every action but typing and adding selections; for these, where
/// something can be added.
pub proof fn law_there_is_room(editor: EditorModel, action: BufferViewAction, index: int, row: int)
    requires
        text::fits(editor.buffer.text),
        buffer::in_text(editor.buffer.text, editor.selections()),
    ensures
        !(action is Edit || action is AddSelectionAbove || action is AddSelectionBelow)
            ==> editor.has_room_to(action),
        0 <= index < editor.selections().len() && ({
            let selection = editor.selections()[index];
            &&& selection.start.row == selection.end.row
            &&& 0 <= row < text::rows(editor.buffer.text).len()
            &&& takes_copy(editor.buffer.text, selection, row)
            &&& action is AddSelectionAbove && row < selection.start.row || action
                is AddSelectionBelow && row > selection.start.row
        }) ==> editor.has_room_to(action),
{
    let text = editor.buffer.text;
    let selections = editor.selections();
    if 0 <= index < selections.len() && ({
        let selection = selections[index];
        &&& selection.start.row == selection.end.row
        &&& 0 <= row < text::rows(text).len()
        &&& takes_copy(text, selection, row)
        &&& action is AddSelectionAbove && row < selection.start.row || action
            is AddSelectionBelow && row > selection.start.row
    }) {
        if action is AddSelectionAbove {
            let parts = lemma_copies_above(text, selections);
            assert(is_copied_above(text, selections[index], parts[index]));
            sequences::lemma_flattened(parts, index, 0);
        } else {
            let parts = lemma_copies_below(text, selections);
            assert(is_copied_below(text, selections[index], parts[index]));
            sequences::lemma_flattened(parts, index, 0);
        }
    }
}

/// Every action can read the characters that it looks at in a text of characters of one
/// code unit each, and an action that does not go by words in any text.
pub proof fn law_characters_can_be_read(editor: EditorModel, action: BufferViewAction)
    ensures
        movement::is_plain(editor.buffer.text) ==> editor.reads_for(action),
        !(action is MoveToBeginningOfWord || action is SelectToBeginningOfWord
            || action is MoveToEndOfWord || action is SelectToEndOfWord || action is SelectWord)
            ==> editor.reads_for(action),
{
    if movement::is_plain(editor.buffer.text) {
        if let Some(motion) = action.motion() {
            assert forall|i: int| 0 <= i < editor.selections().len() implies motion.reads(
                editor.buffer.text,
                #[trigger] editor.selections()[i],
            ) by {
                movement::lemma_plain_is_read(editor.buffer.text, editor.selections()[i].end);
            }
        }
    }
}

} // verus!
