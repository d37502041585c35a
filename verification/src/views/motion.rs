//! The ways in which a selection moves through a text.

use std::ops::Range;

use vstd::prelude::*;

use crate::buffer::Buffer;
use crate::movement;
use crate::point::Point;
use crate::text;

verus! {

/// A way to move or extend each selection of a view.
#[derive(Clone, Copy)]
pub enum Motion {
    MoveLeft,
    SelectLeft,
    MoveRight,
    SelectRight,
    SelectTo { position: Point },
    MoveUp,
    SelectUp,
    MoveDown,
    SelectDown,
    MoveToBeginningOfWord,
    MoveToEndOfWord,
    SelectToBeginningOfWord,
    SelectToEndOfWord,
    SelectWord,
    MoveToBeginningOfLine,
    MoveToEndOfLine,
    SelectToBeginningOfLine,
    SelectToEndOfLine,
    SelectLine,
    MoveToTop,
    MoveToBottom,
    SelectToTop,
    SelectToBottom,
}

/// An empty selection.
pub open spec fn cursor(point: Point) -> Range<Point> {
    Range { start: point, end: point }
}

/// A selection that keeps its start.
pub open spec fn extended(selection: Range<Point>, end: Point) -> Range<Point> {
    Range { start: selection.start, end }
}

/// The start of the row of a point.
pub open spec fn line_start(point: Point) -> Point {
    Point { row: point.row, column: 0 }
}

/// The end of the row of a point.
pub open spec fn line_end(text: Seq<u16>, point: Point) -> Point {
    Point { row: point.row, column: text::rows(text)[point.row as int].len() as u32 }
}

/// The start of the row after that of a point, or the end of the text where that
/// comes first.
pub open spec fn next_line(text: Seq<u16>, point: Point) -> Point {
    (Point { row: (point.row + 1) as u32, column: 0 }).spec_min(text::end_point(text))
}

impl Motion {
    /// What a selection in the text becomes. A selection has its head at its end;
    /// a step left or right first drops a selection that is not empty.
    pub open spec fn applied(self, text: Seq<u16>, selection: Range<Point>) -> Range<Point> {
        let head = selection.end;
        let goal_column = Some(selection.start.column);
        match self {
            Motion::MoveLeft => if selection.start != head {
                cursor(head)
            } else {
                cursor(movement::left_of(text, head)->0)
            },
            Motion::SelectLeft => extended(selection, movement::left_of(text, head)->0),
            Motion::MoveRight => if selection.start != head {
                cursor(head)
            } else {
                cursor(movement::right_of(text, head)->0)
            },
            Motion::SelectRight => extended(selection, movement::right_of(text, head)->0),
            Motion::SelectTo { position } => extended(selection, position),
            Motion::MoveUp => cursor(movement::above(text, head, goal_column)->0),
            Motion::SelectUp => extended(selection, movement::above(text, head, goal_column)->0),
            Motion::MoveDown => cursor(movement::below(text, head, goal_column)),
            Motion::SelectDown => extended(selection, movement::below(text, head, goal_column)),
            Motion::MoveToBeginningOfWord => cursor(movement::word_start(text, head)->0),
            Motion::MoveToEndOfWord => cursor(movement::word_end(text, head)->0),
            Motion::SelectToBeginningOfWord => extended(
                selection,
                movement::word_start(text, head)->0,
            ),
            Motion::SelectToEndOfWord => extended(selection, movement::word_end(text, head)->0),
            Motion::SelectWord => Range {
                start: movement::word_start(text, head)->0,
                end: movement::word_end(text, head)->0,
            },
            Motion::MoveToBeginningOfLine => cursor(line_start(head)),
            Motion::MoveToEndOfLine => cursor(line_end(text, head)),
            Motion::SelectToBeginningOfLine => extended(selection, line_start(head)),
            Motion::SelectToEndOfLine => extended(selection, line_end(text, head)),
            Motion::SelectLine => Range { start: line_start(head), end: next_line(text, head) },
            Motion::MoveToTop => cursor(Point { row: 0, column: 0 }),
            Motion::MoveToBottom => cursor(text::end_point(text)),
            Motion::SelectToTop => extended(selection, Point { row: 0, column: 0 }),
            Motion::SelectToBottom => extended(selection, text::end_point(text)),
        }
    }

    /// Whether the characters that the motion looks at can be read.
    pub open spec fn reads(self, text: Seq<u16>, selection: Range<Point>) -> bool {
        let before = movement::reads_word(movement::chars_before(text, selection.end));
        let after = movement::reads_word(movement::chars_after(text, selection.end));
        match self {
            Motion::MoveToBeginningOfWord | Motion::SelectToBeginningOfWord => before,
            Motion::MoveToEndOfWord | Motion::SelectToEndOfWord => after,
            Motion::SelectWord => before && after,
            _ => true,
        }
    }

    /// Whether the view then scrolls to the last selection.
    pub open spec fn scrolls(self) -> bool {
        !(self is SelectWord || self is SelectLine)
    }
}

/// From a selection in the text, a motion leads to a selection in the text, but
/// for a motion to a point that is none.
pub proof fn law_motion_stays_in_text(text: Seq<u16>, motion: Motion, selection: Range<Point>)
    requires
        text::fits(text),
        text::is_position(text, selection.start),
        text::is_position(text, selection.end),
        motion is SelectTo ==> text::is_position(text, motion->position),
    ensures
        text::is_position(text, motion.applied(text, selection).start),
        text::is_position(text, motion.applied(text, selection).end),
{
    let head = selection.end;
    movement::law_left(text, head);
    movement::law_right(text, head);
    movement::law_up_and_down(text, head, Some(selection.start.column));
    movement::law_left_times(
        text,
        head,
        movement::word_len(movement::classes(movement::chars_before(text, head))),
    );
    movement::law_right_times(
        text,
        head,
        movement::word_len(movement::classes(movement::chars_after(text, head))),
    );
    text::lemma_rows_len(text);
    text::lemma_row_in_text(text, head.row as int);
    text::lemma_row_in_text(text, text::rows(text).len() - 1);
}

/// What a selection in the text becomes.
pub(crate) fn move_selection(buffer: &Buffer, motion: Motion, selection: &Range<Point>) -> (moved: Range<
    Point,
>)
    requires
        buffer.wf(),
        text::is_position(buffer@.text, selection.start),
        text::is_position(buffer@.text, selection.end),
        motion.reads(buffer@.text, *selection),
    ensures
        moved == motion.applied(buffer@.text, *selection),
{
    let start = selection.start;
    let head = selection.end;
    proof {
        buffer.law_selections_lie_in_text();
        let text = buffer@.text;
        movement::law_left(text, head);
        movement::law_right(text, head);
        movement::law_up_and_down(text, head, Some(start.column));
        movement::law_left_times(
            text,
            head,
            movement::word_len(movement::classes(movement::chars_before(text, head))),
        );
        movement::law_right_times(
            text,
            head,
            movement::word_len(movement::classes(movement::chars_after(text, head))),
        );
        text::lemma_rows_len(text);
    }
    match motion {
        Motion::MoveLeft => {
            if start != head {
                head..head
            } else {
                let point = movement::left(buffer, head).unwrap();
                point..point
            }
        },
        Motion::SelectLeft => start..movement::left(buffer, head).unwrap(),
        Motion::MoveRight => {
            if start != head {
                head..head
            } else {
                let point = movement::right(buffer, head).unwrap();
                point..point
            }
        },
        Motion::SelectRight => start..movement::right(buffer, head).unwrap(),
        Motion::SelectTo { position } => start..position,
        Motion::MoveUp => {
            let (point, _) = movement::up(buffer, head, Some(start.column)).unwrap();
            point..point
        },
        Motion::SelectUp => {
            let (point, _) = movement::up(buffer, head, Some(start.column)).unwrap();
            start..point
        },
        Motion::MoveDown => {
            let (point, _) = movement::down(buffer, head, Some(start.column)).unwrap();
            point..point
        },
        Motion::SelectDown => {
            let (point, _) = movement::down(buffer, head, Some(start.column)).unwrap();
            start..point
        },
        Motion::MoveToBeginningOfWord => {
            let point = movement::beginning_of_word(buffer, head).unwrap();
            point..point
        },
        Motion::MoveToEndOfWord => {
            let point = movement::end_of_word(buffer, head).unwrap();
            point..point
        },
        Motion::SelectToBeginningOfWord => start..movement::beginning_of_word(
            buffer,
            head,
        ).unwrap(),
        Motion::SelectToEndOfWord => start..movement::end_of_word(buffer, head).unwrap(),
        Motion::SelectWord => {
            let beginning = movement::beginning_of_word(buffer, head).unwrap();
            let end = movement::end_of_word(buffer, head).unwrap();
            beginning..end
        },
        Motion::MoveToBeginningOfLine => {
            let point = movement::beginning_of_line(head);
            point..point
        },
        Motion::MoveToEndOfLine => {
            let point = movement::end_of_line(buffer, head).unwrap();
            point..point
        },
        Motion::SelectToBeginningOfLine => start..movement::beginning_of_line(head),
        Motion::SelectToEndOfLine => start..movement::end_of_line(buffer, head).unwrap(),
        Motion::SelectLine => {
            let new_start = movement::beginning_of_line(head);
            let max_point = buffer.max_point().unwrap();
            let next = Point::new(new_start.row + 1, 0);
            if max_point < next {
                new_start..max_point
            } else {
                new_start..next
            }
        },
        Motion::MoveToTop => {
            let point = Point::zero();
            point..point
        },
        Motion::MoveToBottom => {
            let point = buffer.max_point().unwrap();
            point..point
        },
        Motion::SelectToTop => start..Point::zero(),
        Motion::SelectToBottom => start..buffer.max_point().unwrap(),
    }
}

} // verus!
