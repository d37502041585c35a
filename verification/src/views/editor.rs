//! A buffer and a view of it as one mathematical value, and what each action
//! makes of it.

use std::ops::Range;

use vstd::prelude::*;

use crate::buffer::{self, BufferModel, OperationModel, SelectionSetId};
use crate::movement;
use crate::point::Point;
use crate::text;
use crate::utf16;
use crate::views::edits;
use crate::views::motion::{self, Motion};

verus! {

/// What a view is asked to bring into sight.
pub struct AutoScrollRequest {
    pub range: Range<Point>,
    pub center: bool,
}

impl AutoScrollRequest {
    /// The rows that are to be in sight around a range: from the first of them to
    /// the one after the last.
    pub fn rows(&self) -> (rows: (u32, u32))
        ensures
            rows.0 == (if self.range.start.row < VERTICAL_MARGIN {
                0
            } else {
                self.range.start.row - VERTICAL_MARGIN
            }),
            rows.1 == (if self.range.end.row > u32::MAX - VERTICAL_MARGIN {
                u32::MAX as int
            } else {
                self.range.end.row + VERTICAL_MARGIN
            }),
    {
        let top: u32 = if self.range.start.row < VERTICAL_MARGIN {
            0
        } else {
            self.range.start.row - VERTICAL_MARGIN
        };
        let bottom: u32 = if self.range.end.row > u32::MAX - VERTICAL_MARGIN {
            u32::MAX
        } else {
            self.range.end.row + VERTICAL_MARGIN
        };
        (top, bottom)
    }

    /// Twice the row in the middle of a range.
    pub fn twice_center_row(&self) -> (sum: u32)
        requires
            self.range.start.row + self.range.end.row <= u32::MAX,
        ensures
            sum == self.range.start.row + self.range.end.row,
    {
        self.range.start.row + self.range.end.row
    }
}

/// How many rows are kept in sight above and below a cursor.
pub const VERTICAL_MARGIN: u32 = 2;

/// How many columns are kept in sight left and right of a cursor.
pub const HORIZONTAL_MARGIN: u32 = 4;

/// A view as a mathematical value.
#[verifier::ext_equal]
pub struct BufferViewModel {
    pub selection_set_id: SelectionSetId,
    /// Whether the view has been given a height, without which it cannot scroll.
    pub has_height: bool,
    /// What is to be brought into sight now.
    pub scroll: Option<AutoScrollRequest>,
    /// What is to be brought into sight once the view is mounted.
    pub vertical_autoscroll: Option<AutoScrollRequest>,
    /// What the next frame is to bring into sight sideways.
    pub horizontal_autoscroll: Option<Range<Point>>,
    /// For each observer, whether there is an update that it has not seen.
    pub unseen: Seq<bool>,
}

impl BufferViewModel {
    /// The view once it is asked to bring a range into sight: at once where it
    /// has a height, else when it is mounted.
    pub open spec fn scrolling_to(self, range: Range<Point>, center: bool) -> BufferViewModel {
        if self.has_height {
            BufferViewModel {
                scroll: Some(AutoScrollRequest { range, center }),
                horizontal_autoscroll: Some(range),
                ..self
            }
        } else {
            BufferViewModel {
                vertical_autoscroll: Some(AutoScrollRequest { range, center }),
                horizontal_autoscroll: None,
                ..self
            }
        }
    }

    /// The view once it is shown in a window, which has a height: what waited for that
    /// is brought into sight.
    pub open spec fn mounted(self) -> BufferViewModel {
        let mounted = BufferViewModel { has_height: true, vertical_autoscroll: None, ..self };
        match self.vertical_autoscroll {
            Some(request) => mounted.scrolling_to(request.range, request.center),
            None => mounted,
        }
    }

    /// The view once its observers have something to see.
    pub open spec fn notified(self) -> BufferViewModel {
        BufferViewModel { unseen: self.unseen.map_values(|seen: bool| true), ..self }
    }
}

/// A buffer and a view of it.
#[verifier::ext_equal]
pub struct EditorModel {
    pub buffer: BufferModel,
    pub view: BufferViewModel,
}

impl EditorModel {
    /// The selections of the view.
    pub open spec fn selections(self) -> Seq<Range<Point>> {
        self.buffer.local[self.view.selection_set_id]
    }

    /// Whether the selection set of the view is there.
    pub open spec fn has_set(self) -> bool {
        self.buffer.local.contains_key(self.view.selection_set_id)
    }

    /// Whether the view has a selection.
    pub open spec fn has_selection(self) -> bool {
        self.has_set() && self.selections().len() > 0
    }

    /// The editor with other selections.
    pub open spec fn selecting(self, ranges: Seq<Range<Point>>) -> EditorModel {
        EditorModel {
            buffer: self.buffer.with_set(self.view.selection_set_id, ranges).telling(
                OperationModel::SetSelections {
                    set_id: self.view.selection_set_id,
                    ranges: buffer::clip_ranges(self.buffer.text, ranges),
                },
            ).notified(),
            ..self
        }
    }

    /// The editor once the view follows its last selection.
    pub open spec fn following(self) -> EditorModel {
        EditorModel {
            view: self.view.scrolling_to(motion::cursor(self.selections().last().end), false),
            ..self
        }
    }

    /// The editor once each selection made a motion.
    pub open spec fn moved(self, motion: Motion) -> EditorModel {
        let selected = self.selecting(
            self.selections().map_values(
                |selection: Range<Point>| motion.applied(self.buffer.text, selection),
            ),
        );
        if motion.scrolls() {
            selected.following()
        } else {
            selected
        }
    }

    /// Whether each selection can make a motion.
    pub open spec fn reads(self, motion: Motion) -> bool {
        forall|i: int|
            0 <= i < self.selections().len() ==> motion.reads(
                self.buffer.text,
                #[trigger] self.selections()[i],
            )
    }
}

impl EditorModel {
    /// The offsets of each selection, in reading order.
    pub open spec fn selected_offsets(self) -> Seq<Range<usize>> {
        buffer::offset_ranges(
            self.buffer.text,
            self.selections().map_values(|selection: Range<Point>| edits::ordered(selection)),
        )
    }

    /// The editor once each selected stretch of text is replaced, before the view
    /// makes anything of it.
    pub open spec fn replaced(self, chars: Seq<char>) -> EditorModel {
        EditorModel {
            buffer: self.buffer.edited(self.selected_offsets(), utf16::units_of(chars)).telling(
                OperationModel::Edit {
                    old_ranges: self.selected_offsets(),
                    text: utf16::units_of(chars),
                },
            ).notified(),
            ..self
        }
    }

    /// The editor once characters are typed in place of each selection: each
    /// selection becomes a cursor after what was typed.
    pub open spec fn edited(self, chars: Seq<char>) -> EditorModel {
        let replaced = self.replaced(chars);
        replaced.selecting(
            replaced.selections().map_values(
                |selection: Range<Point>| motion::cursor(edits::typed(edits::ordered(selection).start, chars)),
            ),
        ).following()
    }

    /// Whether the text keeps to its bound when characters are typed, and each
    /// cursor has a row and a column to go to.
    pub open spec fn has_room_for(self, chars: Seq<char>) -> bool {
        &&& self.buffer.edit_fits(self.selected_offsets(), utf16::units_of(chars))
        &&& forall|i: int|
            0 <= i < self.replaced(chars).selections().len() ==> {
                let start = edits::ordered(#[trigger] self.replaced(chars).selections()[i]).start;
                start.row + edits::newlines(chars) <= u32::MAX && start.column + edits::last_line_bytes(chars)
                    <= u32::MAX
            }
    }

    /// Whether every selection is a cursor.
    pub open spec fn all_empty(self) -> bool {
        forall|i: int|
            0 <= i < self.selections().len() ==> (#[trigger] self.selections()[i]).start
                == self.selections()[i].end
    }

    /// The editor with what a backspace is to delete selected.
    pub open spec fn before_backspace(self) -> EditorModel {
        if self.all_empty() {
            self.selecting(
                self.selections().map_values(
                    |selection: Range<Point>|
                        motion::extended(
                            selection,
                            movement::left_of(self.buffer.text, selection.end)->0,
                        ),
                ),
            ).following()
        } else {
            self
        }
    }

    /// The editor with what a delete is to delete selected.
    pub open spec fn before_delete(self) -> EditorModel {
        if self.all_empty() {
            self.selecting(
                self.selections().map_values(
                    |selection: Range<Point>|
                        motion::extended(
                            selection,
                            movement::right_of(self.buffer.text, selection.end)->0,
                        ),
                ),
            ).following()
        } else {
            self
        }
    }

    /// The editor with one cursor, at a point or at the end of the text where that
    /// comes first.
    pub open spec fn with_cursor(self, position: Point, autoscroll: bool) -> EditorModel {
        let selected = self.selecting(
            seq![motion::cursor(position.spec_min(text::end_point(self.buffer.text)))],
        );
        if autoscroll {
            selected.following()
        } else {
            selected
        }
    }

    /// The editor once a selection set of its own is added for a range.
    pub open spec fn with_selection(self, start: Point, end: Point) -> EditorModel {
        let range = Range {
            start: start.spec_min(text::end_point(self.buffer.text)),
            end: end.spec_min(text::end_point(self.buffer.text)),
        };
        EditorModel {
            buffer: BufferModel {
                next_set_id: (self.buffer.next_set_id + 1) as u64,
                ..self.buffer.with_set(self.buffer.next_set_id, seq![range]).telling(
                    OperationModel::SetSelections {
                        set_id: self.buffer.next_set_id,
                        ranges: buffer::clip_ranges(self.buffer.text, seq![range]),
                    },
                ).notified()
            },
            ..self
        }.following()
    }

    pub open spec fn with_selections_above(self) -> EditorModel {
        self.selecting(edits::with_copies_above(self.buffer.text, self.selections())).following()
    }

    pub open spec fn with_selections_below(self) -> EditorModel {
        self.selecting(edits::with_copies_below(self.buffer.text, self.selections())).following()
    }
}

/// What a user can ask of a view.
#[derive(Debug)]
pub enum BufferViewAction {
    /// The view is scrolled by hand.
    UpdateScrollTop,
    SetDimensions { width: u64, height: u64 },
    Edit { text: String },
    Backspace,
    Delete,
    MoveUp,
    MoveDown,
    MoveLeft,
    MoveRight,
    MoveToBeginningOfWord,
    MoveToEndOfWord,
    MoveToBeginningOfLine,
    MoveToEndOfLine,
    MoveToTop,
    MoveToBottom,
    SelectUp,
    SelectDown,
    SelectLeft,
    SelectRight,
    SelectTo { row: u32, column: u32 },
    SelectToBeginningOfWord,
    SelectToEndOfWord,
    SelectToBeginningOfLine,
    SelectToEndOfLine,
    SelectToTop,
    SelectToBottom,
    SelectWord,
    SelectLine,
    AddSelectionAbove,
    AddSelectionBelow,
    SetCursorPosition { row: u32, column: u32, autoscroll: bool },
}

impl BufferViewAction {
    /// The motion that an action asks of each selection, where it asks for one.
    pub open spec fn motion(self) -> Option<Motion> {
        match self {
            BufferViewAction::MoveUp => Some(Motion::MoveUp),
            BufferViewAction::MoveDown => Some(Motion::MoveDown),
            BufferViewAction::MoveLeft => Some(Motion::MoveLeft),
            BufferViewAction::MoveRight => Some(Motion::MoveRight),
            BufferViewAction::MoveToBeginningOfWord => Some(Motion::MoveToBeginningOfWord),
            BufferViewAction::MoveToEndOfWord => Some(Motion::MoveToEndOfWord),
            BufferViewAction::MoveToBeginningOfLine => Some(Motion::MoveToBeginningOfLine),
            BufferViewAction::MoveToEndOfLine => Some(Motion::MoveToEndOfLine),
            BufferViewAction::MoveToTop => Some(Motion::MoveToTop),
            BufferViewAction::MoveToBottom => Some(Motion::MoveToBottom),
            BufferViewAction::SelectUp => Some(Motion::SelectUp),
            BufferViewAction::SelectDown => Some(Motion::SelectDown),
            BufferViewAction::SelectLeft => Some(Motion::SelectLeft),
            BufferViewAction::SelectRight => Some(Motion::SelectRight),
            BufferViewAction::SelectTo { row, column } => Some(
                Motion::SelectTo { position: Point { row, column } },
            ),
            BufferViewAction::SelectToBeginningOfWord => Some(Motion::SelectToBeginningOfWord),
            BufferViewAction::SelectToEndOfWord => Some(Motion::SelectToEndOfWord),
            BufferViewAction::SelectToBeginningOfLine => Some(Motion::SelectToBeginningOfLine),
            BufferViewAction::SelectToEndOfLine => Some(Motion::SelectToEndOfLine),
            BufferViewAction::SelectToTop => Some(Motion::SelectToTop),
            BufferViewAction::SelectToBottom => Some(Motion::SelectToBottom),
            BufferViewAction::SelectWord => Some(Motion::SelectWord),
            BufferViewAction::SelectLine => Some(Motion::SelectLine),
            _ => None,
        }
    }
}

impl EditorModel {
    /// The editor once the view has a height, or another one.
    pub open spec fn with_height(self) -> EditorModel {
        (EditorModel {
            view: BufferViewModel { has_height: true, ..self.view },
            ..self
        }).resized()
    }

    /// The editor once the view has other measures.
    pub open spec fn resized(self) -> EditorModel {
        EditorModel { view: self.following().view.notified(), ..self }
    }

    /// The editor once the view is scrolled by hand.
    pub open spec fn scrolled(self) -> EditorModel {
        EditorModel {
            view: (BufferViewModel {
                vertical_autoscroll: None,
                horizontal_autoscroll: None,
                ..self.view
            }).notified(),
            ..self
        }
    }

    /// Whether there is room for what an action does: for the text that it types,
    /// or for a selection that it leaves.
    pub open spec fn has_room_to(self, action: BufferViewAction) -> bool {
        match action {
            BufferViewAction::Edit { text } => self.has_room_for(text@),
            BufferViewAction::AddSelectionAbove => edits::with_copies_above(
                self.buffer.text,
                self.selections(),
            ).len() > 0,
            BufferViewAction::AddSelectionBelow => edits::with_copies_below(
                self.buffer.text,
                self.selections(),
            ).len() > 0,
            _ => true,
        }
    }

    /// Whether there is what an action starts from: a selection to follow, where it follows
    /// one, and a selection set, where it has to do with selections.
    pub open spec fn is_ready_for(self, action: BufferViewAction) -> bool {
        match action {
            BufferViewAction::UpdateScrollTop => true,
            BufferViewAction::SelectWord
            | BufferViewAction::SelectLine
            | BufferViewAction::SetCursorPosition { .. } => self.has_set(),
            _ => self.has_selection(),
        }
    }

    /// Whether the characters that an action looks at can be read.
    pub open spec fn reads_for(self, action: BufferViewAction) -> bool {
        match action.motion() {
            Some(motion) => self.reads(motion),
            None => true,
        }
    }

    /// The editor once an action is taken.
    pub open spec fn after(self, action: BufferViewAction) -> EditorModel {
        match action {
            BufferViewAction::UpdateScrollTop => self.scrolled(),
            BufferViewAction::SetDimensions { .. } => self.resized().with_height(),
            BufferViewAction::Edit { text } => self.edited(text@),
            BufferViewAction::Backspace => self.before_backspace().edited(Seq::empty()),
            BufferViewAction::Delete => self.before_delete().edited(Seq::empty()),
            BufferViewAction::AddSelectionAbove => self.with_selections_above(),
            BufferViewAction::AddSelectionBelow => self.with_selections_below(),
            BufferViewAction::SetCursorPosition { row, column, autoscroll } => self.with_cursor(
                Point { row, column },
                autoscroll,
            ),
            _ => self.moved(action.motion()->0),
        }
    }
}

/// There is always room to delete.
pub proof fn lemma_room_to_delete(buffer: BufferModel, ranges: Seq<Range<usize>>)
    requires
        text::fits(buffer.text),
    ensures
        buffer.edit_fits(ranges, Seq::empty()),
    decreases ranges.len(),
{
    if ranges.len() > 0 {
        lemma_room_to_delete(buffer.spliced(ranges.last(), Seq::empty()), ranges.drop_last());
    }
}

/// Whatever a motion makes of the selections of a view, the text and the
/// selection sets of other views stay as they are.
pub proof fn law_motion_leaves_other_sets(
    editor: EditorModel,
    motion: Motion,
    set_id: SelectionSetId,
)
    requires
        set_id != editor.view.selection_set_id,
    ensures
        editor.moved(motion).buffer.text == editor.buffer.text,
        editor.moved(motion).buffer.local.contains_key(set_id)
            == editor.buffer.local.contains_key(set_id),
        editor.moved(motion).buffer.local[set_id] == editor.buffer.local[set_id],
        editor.moved(motion).buffer.remote == editor.buffer.remote,
{
}

/// A motion keeps the number of selections.
pub proof fn law_motion_keeps_count(editor: EditorModel, motion: Motion)
    ensures
        editor.moved(motion).selections().len() == editor.selections().len(),
{
}

/// Typing keeps the number of selections, and leaves each of them a cursor.
pub proof fn law_typing_leaves_cursors(editor: EditorModel, chars: Seq<char>, index: int)
    requires
        editor.buffer.local.contains_key(editor.view.selection_set_id),
        0 <= index < editor.selections().len(),
    ensures
        editor.edited(chars).selections().len() == editor.selections().len(),
        editor.edited(chars).selections()[index].start
            == editor.edited(chars).selections()[index].end,
{
    buffer::law_edit_keeps_the_rest(
        editor.buffer,
        editor.selected_offsets(),
        utf16::units_of(chars),
    );
}

/// Two rows are kept in sight above and below a cursor, and four columns left and right of
/// it.
pub proof fn law_margins()
    ensures
        VERTICAL_MARGIN == 2,
        HORIZONTAL_MARGIN == 4,
{
}

} // verus!
