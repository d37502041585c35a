//! A view of a buffer: a selection set, and what of the text is to be seen.

use std::ops::Range;

use vstd::prelude::*;

use crate::buffer::{self, Buffer, BufferModel, OperationModel, SelectionSetId};
use crate::movement;
use crate::notify_cell::NotifyCell;
use crate::point::Point;
use crate::text;
use crate::utf16;
use crate::views::editor::{
    self, AutoScrollRequest, BufferViewAction, BufferViewModel, EditorModel, HORIZONTAL_MARGIN,
};
use crate::views::edits::{self, copy_in_row, measure};
use crate::views::frame::{self, Frame, HorizontalAutoscroll, SelectionProps};
use crate::views::motion::{self, move_selection, Motion};
use crate::views::workspace::ViewId;

verus! {

/// Who wants to know which view of a buffer is in use.
pub trait BufferViewDelegate {
    /// The view that is in use, as far as is known.
    spec fn spec_active_buffer_view(&self) -> Option<ViewId>;

    /// Takes in which view of a buffer is in use.
    fn set_active_buffer_view(&mut self, buffer_view: ViewId)
        ensures
            final(self).spec_active_buffer_view() == Some(buffer_view),
    ;
}

/// A view of a buffer. Several views can show one buffer; each has a selection
/// set of its own in it. A view does not hold its buffer: what needs the buffer
/// is handed it.
pub struct BufferView {
    selection_set_id: SelectionSetId,
    has_height: bool,
    scroll: Option<AutoScrollRequest>,
    vertical_autoscroll: Option<AutoScrollRequest>,
    horizontal_autoscroll: Option<Range<Point>>,
    updates: NotifyCell<()>,
}

impl View for BufferView {
    type V = BufferViewModel;

    closed spec fn view(&self) -> BufferViewModel {
        BufferViewModel {
            selection_set_id: self.selection_set_id,
            has_height: self.has_height,
            scroll: self.scroll,
            vertical_autoscroll: self.vertical_autoscroll,
            horizontal_autoscroll: self.horizontal_autoscroll,
            unseen: self.updates.unseen(),
        }
    }
}

impl BufferView {
    /// The view together with a buffer.
    pub open spec fn with(&self, buffer: BufferModel) -> EditorModel {
        EditorModel { buffer, view: self@ }
    }

    /// A view of a buffer, with a cursor at the start of the text.
    pub fn new(buffer: &mut Buffer) -> (view: BufferView)
        requires
            old(buffer).wf(),
            old(buffer)@.next_set_id < u64::MAX,
        ensures
            final(buffer).wf(),
            view@ == (BufferViewModel {
                selection_set_id: old(buffer)@.next_set_id,
                has_height: false,
                scroll: None,
                vertical_autoscroll: None,
                horizontal_autoscroll: None,
                unseen: Seq::empty(),
            }),
            view.with(final(buffer)@).has_selection(),
            view.with(final(buffer)@).selections() == seq![
                motion::cursor(Point { row: 0, column: 0 }),
            ],
            final(buffer)@ == (BufferModel {
                next_set_id: (old(buffer)@.next_set_id + 1) as u64,
                ..view.with(old(buffer)@).selecting(
                    seq![motion::cursor(Point { row: 0, column: 0 })],
                ).buffer
            }),
    {
        let mut ranges: Vec<Range<Point>> = Vec::new();
        ranges.push(Point::zero()..Point::zero());
        proof {
            buffer.law_selections_lie_in_text();
            text::lemma_rows_len(buffer@.text);
            assert(buffer::in_text(buffer@.text, ranges@));
            crate::buffer::lemma_clip_in_text(buffer@.text, ranges@);
            assert(ranges@ =~= seq![motion::cursor(Point { row: 0, column: 0 })]);
        }
        let selection_set_id = buffer.add_selection_set(ranges).unwrap();
        BufferView {
            selection_set_id,
            has_height: false,
            scroll: None,
            vertical_autoscroll: None,
            horizontal_autoscroll: None,
            updates: NotifyCell::new(()),
        }
    }

    /// Takes leave of the buffer: the selection set of the view is removed.
    pub fn close(self, buffer: &mut Buffer)
        requires
            old(buffer).wf(),
            old(buffer)@.local.contains_key(self@.selection_set_id),
        ensures
            final(buffer).wf(),
            final(buffer)@ == (BufferModel {
                local: old(buffer)@.local.remove(self@.selection_set_id),
                ..old(buffer)@
            }).telling(OperationModel::RemoveSelections { set_id: self@.selection_set_id }),
    {
        buffer.remove_selection_set(self.selection_set_id).unwrap();
    }

    /// The number of the selection set of the view.
    pub fn selection_set_id(&self) -> (selection_set_id: SelectionSetId)
        ensures
            selection_set_id == self@.selection_set_id,
    {
        self.selection_set_id
    }

    /// The selections of the view.
    pub fn selections(&self, buffer: &Buffer) -> (selections: Vec<Range<Point>>)
        requires
            buffer.wf(),
            buffer@.local.contains_key(self@.selection_set_id),
        ensures
            selections@ == self.with(buffer@).selections(),
    {
        buffer.selections(self.selection_set_id).unwrap()
    }

    /// Asks for a range to be brought into sight.
    pub fn autoscroll_to_range(&mut self, range: Range<Point>, center: bool)
        ensures
            final(self)@ == old(self)@.scrolling_to(range, center),
    {
        let request = AutoScrollRequest { range: range.start..range.end, center };
        if self.has_height {
            self.scroll = Some(request);
            self.horizontal_autoscroll = Some(range);
        } else {
            self.vertical_autoscroll = Some(request);
            self.horizontal_autoscroll = None;
        }
    }

    /// Asks for the last selection to be brought into sight.
    fn autoscroll_to_cursor(&mut self, buffer: &Buffer, center: bool)
        requires
            buffer.wf(),
            old(self).with(buffer@).has_selection(),
        ensures
            final(self)@ == old(self)@.scrolling_to(
                motion::cursor(old(self).with(buffer@).selections().last().end),
                center,
            ),
    {
        let selections = self.selections(buffer);
        let anchor = selections[selections.len() - 1].end;
        self.autoscroll_to_range(anchor..anchor, center)
    }

    /// Puts other selections in place of those of the view.
    fn select(&mut self, buffer: &mut Buffer, ranges: Vec<Range<Point>>)
        requires
            old(buffer).wf(),
            old(buffer)@.local.contains_key(old(self)@.selection_set_id),
        ensures
            final(buffer).wf(),
            final(self)@ == old(self)@,
            final(self).with(final(buffer)@) == old(self).with(old(buffer)@).selecting(ranges@),
            final(buffer)@.local.contains_key(final(self)@.selection_set_id),
            final(self).with(final(buffer)@).selections() == buffer::clip_ranges(
                old(buffer)@.text,
                ranges@,
            ),
    {
        buffer.replace_selection_set(self.selection_set_id, ranges).unwrap();
    }

    /// Has each selection make a motion.
    fn make_motion(&mut self, buffer: &mut Buffer, motion: Motion)
        requires
            old(buffer).wf(),
            old(self).with(old(buffer)@).has_set(),
            motion.scrolls() ==> old(self).with(old(buffer)@).has_selection(),
            old(self).with(old(buffer)@).reads(motion),
        ensures
            final(buffer).wf(),
            final(self).with(final(buffer)@).has_set(),
            old(self).with(old(buffer)@).has_selection() ==> final(self).with(
                final(buffer)@,
            ).has_selection(),
            final(self).with(final(buffer)@) == old(self).with(old(buffer)@).moved(motion),
    {
        let selections = self.selections(buffer);
        let ghost text = buffer@.text;
        let ghost targets = selections@.map_values(
            |selection: Range<Point>| motion.applied(text, selection),
        );
        proof {
            buffer.law_selections_lie_in_text();
        }
        let mut ranges: Vec<Range<Point>> = Vec::new();
        let mut i: usize = 0;
        while i < selections.len()
            invariant
                i <= selections.len(),
                buffer.wf(),
                buffer@.text == text,
                buffer::in_text(text, selections@),
                forall|j: int|
                    0 <= j < selections@.len() ==> motion.reads(text, #[trigger] selections@[j]),
                targets == selections@.map_values(
                    |selection: Range<Point>| motion.applied(text, selection),
                ),
                ranges@ == targets.take(i as int),
            decreases selections.len() - i,
        {
            assert(text::is_position(text, selections@[i as int].start));
            ranges.push(move_selection(buffer, motion, &selections[i]));
            i += 1;
            assert(ranges@ =~= targets.take(i as int));
        }
        assert(ranges@ =~= targets);
        self.select(buffer, ranges);
        let scrolls: bool = match motion {
            Motion::SelectWord | Motion::SelectLine => false,
            _ => true,
        };
        if scrolls {
            self.autoscroll_to_cursor(buffer, false);
        }
    }

    /// Moves each cursor one code unit back, and turns each selection into a cursor at
    /// its head.
    pub fn move_left(&mut self, buffer: &mut Buffer)
        requires
            old(buffer).wf(),
            old(self).with(old(buffer)@).has_selection(),
        ensures
            final(buffer).wf(),
            final(self).with(final(buffer)@).has_selection(),
            final(self).with(final(buffer)@) == old(self).with(old(buffer)@).moved(
                Motion::MoveLeft,
            ),
    {
        self.make_motion(buffer, Motion::MoveLeft)
    }

    /// Extends each selection one code unit back.
    pub fn select_left(&mut self, buffer: &mut Buffer)
        requires
            old(buffer).wf(),
            old(self).with(old(buffer)@).has_selection(),
        ensures
            final(buffer).wf(),
            final(self).with(final(buffer)@).has_selection(),
            final(self).with(final(buffer)@) == old(self).with(old(buffer)@).moved(
                Motion::SelectLeft,
            ),
    {
        self.make_motion(buffer, Motion::SelectLeft)
    }

    /// Moves each cursor one code unit on, and turns each selection into a cursor at
    /// its head.
    pub fn move_right(&mut self, buffer: &mut Buffer)
        requires
            old(buffer).wf(),
            old(self).with(old(buffer)@).has_selection(),
        ensures
            final(buffer).wf(),
            final(self).with(final(buffer)@).has_selection(),
            final(self).with(final(buffer)@) == old(self).with(old(buffer)@).moved(
                Motion::MoveRight,
            ),
    {
        self.make_motion(buffer, Motion::MoveRight)
    }

    /// Extends each selection one code unit on.
    pub fn select_right(&mut self, buffer: &mut Buffer)
        requires
            old(buffer).wf(),
            old(self).with(old(buffer)@).has_selection(),
        ensures
            final(buffer).wf(),
            final(self).with(final(buffer)@).has_selection(),
            final(self).with(final(buffer)@) == old(self).with(old(buffer)@).moved(
                Motion::SelectRight,
            ),
    {
        self.make_motion(buffer, Motion::SelectRight)
    }

    /// Moves each cursor one row up.
    pub fn move_up(&mut self, buffer: &mut Buffer)
        requires
            old(buffer).wf(),
            old(self).with(old(buffer)@).has_selection(),
        ensures
            final(buffer).wf(),
            final(self).with(final(buffer)@).has_selection(),
            final(self).with(final(buffer)@) == old(self).with(old(buffer)@).moved(
                Motion::MoveUp,
            ),
    {
        self.make_motion(buffer, Motion::MoveUp)
    }

    /// Extends each selection one row up.
    pub fn select_up(&mut self, buffer: &mut Buffer)
        requires
            old(buffer).wf(),
            old(self).with(old(buffer)@).has_selection(),
        ensures
            final(buffer).wf(),
            final(self).with(final(buffer)@).has_selection(),
            final(self).with(final(buffer)@) == old(self).with(old(buffer)@).moved(
                Motion::SelectUp,
            ),
    {
        self.make_motion(buffer, Motion::SelectUp)
    }

    /// Moves each cursor one row down.
    pub fn move_down(&mut self, buffer: &mut Buffer)
        requires
            old(buffer).wf(),
            old(self).with(old(buffer)@).has_selection(),
        ensures
            final(buffer).wf(),
            final(self).with(final(buffer)@).has_selection(),
            final(self).with(final(buffer)@) == old(self).with(old(buffer)@).moved(
                Motion::MoveDown,
            ),
    {
        self.make_motion(buffer, Motion::MoveDown)
    }

    /// Extends each selection one row down.
    pub fn select_down(&mut self, buffer: &mut Buffer)
        requires
            old(buffer).wf(),
            old(self).with(old(buffer)@).has_selection(),
        ensures
            final(buffer).wf(),
            final(self).with(final(buffer)@).has_selection(),
            final(self).with(final(buffer)@) == old(self).with(old(buffer)@).moved(
                Motion::SelectDown,
            ),
    {
        self.make_motion(buffer, Motion::SelectDown)
    }

    /// Moves each cursor to the beginning of the word before it.
    pub fn move_to_beginning_of_word(&mut self, buffer: &mut Buffer)
        requires
            old(buffer).wf(),
            old(self).with(old(buffer)@).has_selection(),
            old(self).with(old(buffer)@).reads(Motion::MoveToBeginningOfWord),
        ensures
            final(buffer).wf(),
            final(self).with(final(buffer)@).has_selection(),
            final(self).with(final(buffer)@) == old(self).with(old(buffer)@).moved(
                Motion::MoveToBeginningOfWord,
            ),
    {
        self.make_motion(buffer, Motion::MoveToBeginningOfWord)
    }

    /// Moves each cursor to the end of the word after it.
    pub fn move_to_end_of_word(&mut self, buffer: &mut Buffer)
        requires
            old(buffer).wf(),
            old(self).with(old(buffer)@).has_selection(),
            old(self).with(old(buffer)@).reads(Motion::MoveToEndOfWord),
        ensures
            final(buffer).wf(),
            final(self).with(final(buffer)@).has_selection(),
            final(self).with(final(buffer)@) == old(self).with(old(buffer)@).moved(
                Motion::MoveToEndOfWord,
            ),
    {
        self.make_motion(buffer, Motion::MoveToEndOfWord)
    }

    /// Extends each selection to the beginning of the word before its head.
    pub fn select_to_beginning_of_word(&mut self, buffer: &mut Buffer)
        requires
            old(buffer).wf(),
            old(self).with(old(buffer)@).has_selection(),
            old(self).with(old(buffer)@).reads(Motion::SelectToBeginningOfWord),
        ensures
            final(buffer).wf(),
            final(self).with(final(buffer)@).has_selection(),
            final(self).with(final(buffer)@) == old(self).with(old(buffer)@).moved(
                Motion::SelectToBeginningOfWord,
            ),
    {
        self.make_motion(buffer, Motion::SelectToBeginningOfWord)
    }

    /// Extends each selection to the end of the word after its head.
    pub fn select_to_end_of_word(&mut self, buffer: &mut Buffer)
        requires
            old(buffer).wf(),
            old(self).with(old(buffer)@).has_selection(),
            old(self).with(old(buffer)@).reads(Motion::SelectToEndOfWord),
        ensures
            final(buffer).wf(),
            final(self).with(final(buffer)@).has_selection(),
            final(self).with(final(buffer)@) == old(self).with(old(buffer)@).moved(
                Motion::SelectToEndOfWord,
            ),
    {
        self.make_motion(buffer, Motion::SelectToEndOfWord)
    }

    /// Selects the word around the head of each selection. The view does not scroll.
    pub fn select_word(&mut self, buffer: &mut Buffer)
        requires
            old(buffer).wf(),
            old(self).with(old(buffer)@).has_set(),
            old(self).with(old(buffer)@).reads(Motion::SelectWord),
        ensures
            final(buffer).wf(),
            final(self).with(final(buffer)@).has_set(),
            old(self).with(old(buffer)@).has_selection() ==> final(self).with(
                final(buffer)@,
            ).has_selection(),
            final(self).with(final(buffer)@) == old(self).with(old(buffer)@).moved(
                Motion::SelectWord,
            ),
    {
        self.make_motion(buffer, Motion::SelectWord)
    }

    /// Moves each cursor to the start of its row.
    pub fn move_to_beginning_of_line(&mut self, buffer: &mut Buffer)
        requires
            old(buffer).wf(),
            old(self).with(old(buffer)@).has_selection(),
        ensures
            final(buffer).wf(),
            final(self).with(final(buffer)@).has_selection(),
            final(self).with(final(buffer)@) == old(self).with(old(buffer)@).moved(
                Motion::MoveToBeginningOfLine,
            ),
    {
        self.make_motion(buffer, Motion::MoveToBeginningOfLine)
    }

    /// Moves each cursor to the end of its row.
    pub fn move_to_end_of_line(&mut self, buffer: &mut Buffer)
        requires
            old(buffer).wf(),
            old(self).with(old(buffer)@).has_selection(),
        ensures
            final(buffer).wf(),
            final(self).with(final(buffer)@).has_selection(),
            final(self).with(final(buffer)@) == old(self).with(old(buffer)@).moved(
                Motion::MoveToEndOfLine,
            ),
    {
        self.make_motion(buffer, Motion::MoveToEndOfLine)
    }

    /// Extends each selection to the start of the row of its head.
    pub fn select_to_beginning_of_line(&mut self, buffer: &mut Buffer)
        requires
            old(buffer).wf(),
            old(self).with(old(buffer)@).has_selection(),
        ensures
            final(buffer).wf(),
            final(self).with(final(buffer)@).has_selection(),
            final(self).with(final(buffer)@) == old(self).with(old(buffer)@).moved(
                Motion::SelectToBeginningOfLine,
            ),
    {
        self.make_motion(buffer, Motion::SelectToBeginningOfLine)
    }

    /// Extends each selection to the end of the row of its head.
    pub fn select_to_end_of_line(&mut self, buffer: &mut Buffer)
        requires
            old(buffer).wf(),
            old(self).with(old(buffer)@).has_selection(),
        ensures
            final(buffer).wf(),
            final(self).with(final(buffer)@).has_selection(),
            final(self).with(final(buffer)@) == old(self).with(old(buffer)@).moved(
                Motion::SelectToEndOfLine,
            ),
    {
        self.make_motion(buffer, Motion::SelectToEndOfLine)
    }

    /// Selects the row of the head of each selection. The view does not scroll.
    pub fn select_line(&mut self, buffer: &mut Buffer)
        requires
            old(buffer).wf(),
            old(self).with(old(buffer)@).has_set(),
        ensures
            final(buffer).wf(),
            final(self).with(final(buffer)@).has_set(),
            old(self).with(old(buffer)@).has_selection() ==> final(self).with(
                final(buffer)@,
            ).has_selection(),
            final(self).with(final(buffer)@) == old(self).with(old(buffer)@).moved(
                Motion::SelectLine,
            ),
    {
        self.make_motion(buffer, Motion::SelectLine)
    }

    /// Moves each cursor to the start of the text.
    pub fn move_to_top(&mut self, buffer: &mut Buffer)
        requires
            old(buffer).wf(),
            old(self).with(old(buffer)@).has_selection(),
        ensures
            final(buffer).wf(),
            final(self).with(final(buffer)@).has_selection(),
            final(self).with(final(buffer)@) == old(self).with(old(buffer)@).moved(
                Motion::MoveToTop,
            ),
    {
        self.make_motion(buffer, Motion::MoveToTop)
    }

    /// Moves each cursor to the end of the text.
    pub fn move_to_bottom(&mut self, buffer: &mut Buffer)
        requires
            old(buffer).wf(),
            old(self).with(old(buffer)@).has_selection(),
        ensures
            final(buffer).wf(),
            final(self).with(final(buffer)@).has_selection(),
            final(self).with(final(buffer)@) == old(self).with(old(buffer)@).moved(
                Motion::MoveToBottom,
            ),
    {
        self.make_motion(buffer, Motion::MoveToBottom)
    }

    /// Extends each selection to the start of the text.
    pub fn select_to_top(&mut self, buffer: &mut Buffer)
        requires
            old(buffer).wf(),
            old(self).with(old(buffer)@).has_selection(),
        ensures
            final(buffer).wf(),
            final(self).with(final(buffer)@).has_selection(),
            final(self).with(final(buffer)@) == old(self).with(old(buffer)@).moved(
                Motion::SelectToTop,
            ),
    {
        self.make_motion(buffer, Motion::SelectToTop)
    }

    /// Extends each selection to the end of the text.
    pub fn select_to_bottom(&mut self, buffer: &mut Buffer)
        requires
            old(buffer).wf(),
            old(self).with(old(buffer)@).has_selection(),
        ensures
            final(buffer).wf(),
            final(self).with(final(buffer)@).has_selection(),
            final(self).with(final(buffer)@) == old(self).with(old(buffer)@).moved(
                Motion::SelectToBottom,
            ),
    {
        self.make_motion(buffer, Motion::SelectToBottom)
    }

    /// Extends each selection to a point.
    pub fn select_to(&mut self, buffer: &mut Buffer, position: Point)
        requires
            old(buffer).wf(),
            old(self).with(old(buffer)@).has_selection(),
        ensures
            final(buffer).wf(),
            final(self).with(final(buffer)@).has_selection(),
            final(self).with(final(buffer)@) == old(self).with(old(buffer)@).moved(
                Motion::SelectTo { position },
            ),
    {
        self.make_motion(buffer, Motion::SelectTo { position })
    }

    /// Types text in place of each selection.
    pub fn edit(&mut self, buffer: &mut Buffer, text: &str)
        requires
            old(buffer).wf(),
            old(self).with(old(buffer)@).has_selection(),
            old(self).with(old(buffer)@).has_room_for(text@),
        ensures
            final(buffer).wf(),
            final(self).with(final(buffer)@).has_selection(),
            final(self).with(final(buffer)@) == old(self).with(old(buffer)@).edited(text@),
    {
        let ghost editor = self.with(buffer@);
        let selections = self.selections(buffer);
        let ghost in_order = selections@.map_values(|selection: Range<Point>| edits::ordered(selection));
        let mut old_ranges: Vec<Range<Point>> = Vec::new();
        let mut i: usize = 0;
        while i < selections.len()
            invariant
                i <= selections.len(),
                in_order == selections@.map_values(|selection: Range<Point>| edits::ordered(selection)),
                old_ranges@ == in_order.take(i as int),
            decreases selections.len() - i,
        {
            if selections[i].end < selections[i].start {
                old_ranges.push(selections[i].end..selections[i].start);
            } else {
                old_ranges.push(selections[i].start..selections[i].end);
            }
            i += 1;
            assert(old_ranges@ =~= in_order.take(i as int));
        }
        assert(old_ranges@ =~= in_order);
        buffer.edit_2d(old_ranges, text).unwrap();
        proof {
            buffer::law_edit_keeps_the_rest(
                editor.buffer,
                editor.selected_offsets(),
                utf16::units_of(text@),
            );
            assert(self.with(buffer@) == editor.replaced(text@));
        }
        let (rows, bytes) = measure(text);
        let selections = self.selections(buffer);
        let ghost cursors = selections@.map_values(
            |selection: Range<Point>| motion::cursor(edits::typed(edits::ordered(selection).start, text@)),
        );
        let mut ranges: Vec<Range<Point>> = Vec::new();
        let mut k: usize = 0;
        while k < selections.len()
            invariant
                k <= selections.len(),
                selections@ == editor.replaced(text@).selections(),
                editor.has_room_for(text@),
                rows == edits::newlines(text@),
                bytes == edits::last_line_bytes(text@),
                cursors == selections@.map_values(
                    |selection: Range<Point>| motion::cursor(edits::typed(edits::ordered(selection).start, text@)),
                ),
                ranges@ == cursors.take(k as int),
            decreases selections.len() - k,
        {
            let point: Point = if selections[k].end < selections[k].start {
                selections[k].end
            } else {
                selections[k].start
            };
            proof {
                let start = edits::ordered(editor.replaced(text@).selections()[k as int]).start;
                assert(start == point);
            }
            let point = Point::new(point.row + rows as u32, point.column + bytes as u32);
            ranges.push(point..point);
            k += 1;
            assert(ranges@ =~= cursors.take(k as int));
        }
        assert(ranges@ =~= cursors);
        self.select(buffer, ranges);
        self.autoscroll_to_cursor(buffer, false);
    }

    /// Whether every selection is a cursor.
    fn all_selections_are_empty(&self, buffer: &Buffer) -> (all_empty: bool)
        requires
            buffer.wf(),
            buffer@.local.contains_key(self@.selection_set_id),
        ensures
            all_empty == self.with(buffer@).all_empty(),
    {
        let selections = self.selections(buffer);
        let mut i: usize = 0;
        while i < selections.len()
            invariant
                i <= selections.len(),
                selections@ == self.with(buffer@).selections(),
                forall|j: int|
                    0 <= j < i ==> (#[trigger] selections@[j]).start == selections@[j].end,
            decreases selections.len() - i,
        {
            if selections[i].start != selections[i].end {
                return false;
            }
            i += 1;
        }
        true
    }

    /// Deletes what is selected, or what is before each cursor where nothing is
    /// selected.
    pub fn backspace(&mut self, buffer: &mut Buffer)
        requires
            old(buffer).wf(),
            old(self).with(old(buffer)@).has_selection(),
        ensures
            final(buffer).wf(),
            final(self).with(final(buffer)@).has_selection(),
            final(self).with(final(buffer)@) == old(self).with(old(buffer)@).before_backspace().edited(
                Seq::empty(),
            ),
    {
        let ghost editor = self.with(buffer@);
        if self.all_selections_are_empty(buffer) {
            self.select_left(buffer);
            proof {
                assert(editor.selections().map_values(
                    |selection: Range<Point>|
                        Motion::SelectLeft.applied(editor.buffer.text, selection),
                ) =~= editor.selections().map_values(
                    |selection: Range<Point>|
                        motion::extended(
                            selection,
                            movement::left_of(editor.buffer.text, selection.end)->0,
                        ),
                ));
            }
        }
        proof {
            reveal_strlit("");
            assert(""@ =~= Seq::<char>::empty());
            assert(utf16::units_of(Seq::<char>::empty()) =~= Seq::<u16>::empty());
            buffer.law_selections_lie_in_text();
            editor::lemma_room_to_delete(buffer@, self.with(buffer@).selected_offsets());
        }
        self.edit(buffer, "");
    }

    /// Deletes what is selected, or what is after each cursor where nothing is
    /// selected.
    pub fn delete(&mut self, buffer: &mut Buffer)
        requires
            old(buffer).wf(),
            old(self).with(old(buffer)@).has_selection(),
        ensures
            final(buffer).wf(),
            final(self).with(final(buffer)@).has_selection(),
            final(self).with(final(buffer)@) == old(self).with(old(buffer)@).before_delete().edited(
                Seq::empty(),
            ),
    {
        let ghost editor = self.with(buffer@);
        if self.all_selections_are_empty(buffer) {
            self.select_right(buffer);
            proof {
                assert(editor.selections().map_values(
                    |selection: Range<Point>|
                        Motion::SelectRight.applied(editor.buffer.text, selection),
                ) =~= editor.selections().map_values(
                    |selection: Range<Point>|
                        motion::extended(
                            selection,
                            movement::right_of(editor.buffer.text, selection.end)->0,
                        ),
                ));
            }
        }
        proof {
            reveal_strlit("");
            assert(""@ =~= Seq::<char>::empty());
            assert(utf16::units_of(Seq::<char>::empty()) =~= Seq::<u16>::empty());
            buffer.law_selections_lie_in_text();
            editor::lemma_room_to_delete(buffer@, self.with(buffer@).selected_offsets());
        }
        self.edit(buffer, "");
    }

    /// Leaves one cursor, at a point.
    pub fn set_cursor_position(&mut self, buffer: &mut Buffer, position: Point, autoscroll: bool)
        requires
            old(buffer).wf(),
            old(buffer)@.local.contains_key(old(self)@.selection_set_id),
        ensures
            final(buffer).wf(),
            final(self).with(final(buffer)@).has_selection(),
            final(self).with(final(buffer)@) == old(self).with(old(buffer)@).with_cursor(
                position,
                autoscroll,
            ),
    {
        let position = buffer.clip_point(position).unwrap();
        let mut ranges: Vec<Range<Point>> = Vec::new();
        ranges.push(position..position);
        assert(ranges@ =~= seq![motion::cursor(position)]);
        self.select(buffer, ranges);
        if autoscroll {
            self.autoscroll_to_cursor(buffer, false);
        }
    }

    /// Adds a selection set for a range, given from its start to its end.
    pub fn add_selection(&mut self, buffer: &mut Buffer, start: Point, end: Point)
        requires
            old(buffer).wf(),
            old(buffer)@.next_set_id < u64::MAX,
            old(self).with(old(buffer)@).has_selection(),
            !end.before(start),
        ensures
            final(buffer).wf(),
            final(self).with(final(buffer)@).has_selection(),
            final(self).with(final(buffer)@) == old(self).with(old(buffer)@).with_selection(
                start,
                end,
            ),
    {
        proof {
            buffer.law_selections_lie_in_text();
        }
        let start = buffer.clip_point(start).unwrap();
        let end = buffer.clip_point(end).unwrap();
        let mut ranges: Vec<Range<Point>> = Vec::new();
        ranges.push(start..end);
        assert(ranges@ =~= seq![Range { start, end }]);
        let _ = buffer.add_selection_set(ranges);
        self.autoscroll_to_cursor(buffer, false);
    }

    /// The selections, each followed by its copy in the nearest row above it that has room
    /// for one. A selection without such a row is left out.
    pub fn copies_above(&self, buffer: &Buffer) -> (copies: Vec<Range<Point>>)
        requires
            buffer.wf(),
            buffer@.local.contains_key(self@.selection_set_id),
        ensures
            copies@ == edits::with_copies_above(buffer@.text, self.with(buffer@).selections()),
    {
        let selections = self.selections(buffer);
        let ghost text = buffer@.text;
        proof {
            buffer.law_selections_lie_in_text();
        }
        let mut new_selections: Vec<Range<Point>> = Vec::new();
        let mut i: usize = 0;
        assert(selections@.take(0) =~= Seq::empty());
        while i < selections.len()
            invariant
                i <= selections.len(),
                buffer.wf(),
                buffer@.text == text,
                buffer::in_text(text, selections@),
                new_selections@ == edits::with_copies_above(text, selections@.take(i as int)),
            decreases selections.len() - i,
        {
            let start = selections[i].start;
            let end = selections[i].end;
            let ghost selection = selections@[i as int];
            let ghost before = new_selections@;
            assert(text::is_position(text, selection.start));
            if start.row == end.row {
                let mut row: u32 = start.row;
                let mut copy: Option<Range<Point>> = None;
                while row > 0 && copy.is_none()
                    invariant
                        buffer.wf(),
                        buffer@.text == text,
                        row < text::rows(text).len(),
                        selection == selections@[i as int],
                        i < selections@.len(),
                        match copy {
                            Some(copy) => edits::room_above(text, selection, selection.start.row as int)
                                == Some(row as int) && copy == edits::copied(text, selection, row as int),
                            None => edits::room_above(text, selection, selection.start.row as int)
                                == edits::room_above(text, selection, row as int),
                        },
                    decreases row,
                {
                    row -= 1;
                    copy = copy_in_row(buffer, &selections[i], row);
                }
                if let Some(copy) = copy {
                    new_selections.push(start..end);
                    new_selections.push(copy);
                    assert(new_selections@ =~= before + edits::with_copy(
                        text,
                        selection,
                        edits::room_above(text, selection, selection.start.row as int),
                    ));
                }
            }
            proof {
                assert(selections@.take(i + 1).drop_last() =~= selections@.take(i as int));
                assert(new_selections@ =~= edits::with_copies_above(text, selections@.take(i + 1)));
            }
            i += 1;
        }
        assert(selections@.take(i as int) =~= selections@);
        new_selections
    }

    /// Adds a copy of each selection in the nearest row above it that has room for
    /// it.
    pub fn add_selection_above(&mut self, buffer: &mut Buffer)
        requires
            old(buffer).wf(),
            old(buffer)@.local.contains_key(old(self)@.selection_set_id),
            edits::with_copies_above(
                old(buffer)@.text,
                old(self).with(old(buffer)@).selections(),
            ).len() > 0,
        ensures
            final(buffer).wf(),
            final(self).with(final(buffer)@).has_selection(),
            final(self).with(final(buffer)@) == old(self).with(
                old(buffer)@,
            ).with_selections_above(),
    {
        let copies = self.copies_above(buffer);
        self.select(buffer, copies);
        self.autoscroll_to_cursor(buffer, false);
    }

    /// The selections, each followed by its copy in the nearest row below it that has room
    /// for one. A selection without such a row is left out.
    pub fn copies_below(&self, buffer: &Buffer) -> (copies: Vec<Range<Point>>)
        requires
            buffer.wf(),
            buffer@.local.contains_key(self@.selection_set_id),
        ensures
            copies@ == edits::with_copies_below(buffer@.text, self.with(buffer@).selections()),
    {
        let selections = self.selections(buffer);
        let ghost text = buffer@.text;
        proof {
            buffer.law_selections_lie_in_text();
            text::lemma_rows_len(text);
        }
        let max_row: u32 = buffer.max_point().unwrap().row;
        let mut new_selections: Vec<Range<Point>> = Vec::new();
        let mut i: usize = 0;
        assert(selections@.take(0) =~= Seq::empty());
        while i < selections.len()
            invariant
                i <= selections.len(),
                buffer.wf(),
                buffer@.text == text,
                max_row == text::rows(text).len() - 1,
                buffer::in_text(text, selections@),
                new_selections@ == edits::with_copies_below(text, selections@.take(i as int)),
            decreases selections.len() - i,
        {
            let start = selections[i].start;
            let end = selections[i].end;
            let ghost selection = selections@[i as int];
            let ghost before = new_selections@;
            assert(text::is_position(text, selection.start));
            if start.row == end.row {
                let mut row: u32 = start.row;
                let mut copy: Option<Range<Point>> = None;
                while row < max_row && copy.is_none()
                    invariant
                        buffer.wf(),
                        buffer@.text == text,
                        row < text::rows(text).len(),
                        max_row == text::rows(text).len() - 1,
                        selection == selections@[i as int],
                        i < selections@.len(),
                        match copy {
                            Some(copy) => edits::room_below(text, selection, selection.start.row as int)
                                == Some(row as int) && copy == edits::copied(text, selection, row as int),
                            None => edits::room_below(text, selection, selection.start.row as int)
                                == edits::room_below(text, selection, row as int),
                        },
                    decreases max_row - row,
                {
                    row += 1;
                    copy = copy_in_row(buffer, &selections[i], row);
                }
                if let Some(copy) = copy {
                    new_selections.push(start..end);
                    new_selections.push(copy);
                    assert(new_selections@ =~= before + edits::with_copy(
                        text,
                        selection,
                        edits::room_below(text, selection, selection.start.row as int),
                    ));
                }
            }
            proof {
                assert(selections@.take(i + 1).drop_last() =~= selections@.take(i as int));
                assert(new_selections@ =~= edits::with_copies_below(text, selections@.take(i + 1)));
            }
            i += 1;
        }
        assert(selections@.take(i as int) =~= selections@);
        new_selections
    }

    /// Adds a copy of each selection in the nearest row below it that has room for
    /// it.
    pub fn add_selection_below(&mut self, buffer: &mut Buffer)
        requires
            old(buffer).wf(),
            old(buffer)@.local.contains_key(old(self)@.selection_set_id),
            edits::with_copies_below(
                old(buffer)@.text,
                old(self).with(old(buffer)@).selections(),
            ).len() > 0,
        ensures
            final(buffer).wf(),
            final(self).with(final(buffer)@).has_selection(),
            final(self).with(final(buffer)@) == old(self).with(
                old(buffer)@,
            ).with_selections_below(),
    {
        let copies = self.copies_below(buffer);
        self.select(buffer, copies);
        self.autoscroll_to_cursor(buffer, false);
    }

    /// Gives observers of the view something to see.
    fn updated(&mut self)
        ensures
            final(self)@ == old(self)@.notified(),
    {
        self.updates.set(());
    }

    /// Takes in that the view has a height, or another one.
    pub fn set_height(&mut self, buffer: &Buffer)
        requires
            buffer.wf(),
            old(self).with(buffer@).has_selection(),
        ensures
            final(self).with(buffer@) == old(self).with(buffer@).with_height(),
    {
        self.has_height = true;
        self.autoscroll_to_cursor(buffer, false);
        self.updated();
    }

    /// Takes in that the view has another width.
    pub fn set_width(&mut self, buffer: &Buffer)
        requires
            buffer.wf(),
            old(self).with(buffer@).has_selection(),
        ensures
            final(self).with(buffer@) == old(self).with(buffer@).resized(),
    {
        self.autoscroll_to_cursor(buffer, false);
        self.updated();
    }

    /// Takes in that the rows of the view have another height.
    pub fn set_line_height(&mut self, buffer: &Buffer)
        requires
            buffer.wf(),
            old(self).with(buffer@).has_selection(),
        ensures
            final(self).with(buffer@) == old(self).with(buffer@).resized(),
    {
        self.autoscroll_to_cursor(buffer, false);
        self.updated();
    }

    /// Takes in that the view was scrolled by hand: nothing is to be brought into
    /// sight any more.
    pub fn set_scroll_top(&mut self)
        ensures
            final(self)@ == (BufferViewModel {
                vertical_autoscroll: None,
                horizontal_autoscroll: None,
                ..old(self)@
            }).notified(),
    {
        self.vertical_autoscroll = None;
        self.horizontal_autoscroll = None;
        self.updated();
    }

    /// What is to be brought into sight now, once.
    pub fn take_scroll(&mut self) -> (scroll: Option<AutoScrollRequest>)
        ensures
            scroll == old(self)@.scroll,
            final(self)@ == (BufferViewModel { scroll: None, ..old(self)@ }),
    {
        self.scroll.take()
    }

    /// Takes in that the view scrolled by itself: nothing waits for it to be
    /// mounted any more.
    pub fn did_autoscroll(&mut self)
        ensures
            final(self)@ == (BufferViewModel { vertical_autoscroll: None, ..old(self)@ }).notified(),
    {
        self.vertical_autoscroll = None;
        self.updated();
    }

    /// Takes in that the view is shown in a window, which has a height: what waited
    /// for that is brought into sight.
    pub fn will_mount(&mut self)
        ensures
            final(self)@ == old(self)@.mounted(),
    {
        self.has_height = true;
        if let Some(request) = self.vertical_autoscroll.take() {
            self.autoscroll_to_range(request.range, request.center);
        }
    }

    /// Takes in that the view is shown in a window under some number, and lets a
    /// delegate know that it is the one in use.
    pub fn mount<D: BufferViewDelegate>(&mut self, view_id: ViewId, delegate: &mut D)
        ensures
            final(self)@ == old(self)@.mounted(),
            final(delegate).spec_active_buffer_view() == Some(view_id),
    {
        self.will_mount();
        delegate.set_active_buffer_view(view_id);
    }

    /// Adds an observer of the view.
    pub fn updates(&mut self) -> (observer: usize)
        ensures
            observer == old(self)@.unseen.len(),
            final(self)@ == (BufferViewModel { unseen: old(self)@.unseen.push(false), ..old(self)@ }),
    {
        self.updates.observe()
    }

    /// Whether an observer of the view and of its buffer has something to see: an
    /// update of either. Where both were updated, that of the buffer is kept for
    /// the next time.
    pub fn poll(&mut self, buffer: &mut Buffer, observer: usize, buffer_observer: usize) -> (updated:
        bool)
        requires
            old(buffer).wf(),
            observer < old(self)@.unseen.len(),
            buffer_observer < old(buffer)@.unseen.len(),
        ensures
            final(buffer).wf(),
            updated == (old(self)@.unseen[observer as int]
                || old(buffer)@.unseen[buffer_observer as int]),
            final(self)@ == (BufferViewModel {
                unseen: old(self)@.unseen.update(observer as int, false),
                ..old(self)@
            }),
            final(buffer)@ == (if old(self)@.unseen[observer as int] {
                old(buffer)@
            } else {
                BufferModel {
                    unseen: old(buffer)@.unseen.update(buffer_observer as int, false),
                    ..old(buffer)@
                }
            }),
    {
        if self.updates.poll(observer).is_some() {
            true
        } else {
            buffer.poll_update(buffer_observer)
        }
    }

    /// Whether a frame can be drawn: the rows that are to be brought into sight
    /// sideways can be told.
    pub open spec fn can_draw(&self, text: Seq<u16>, first_row: int, end_row: int) -> bool {
        self@.horizontal_autoscroll matches Some(range) ==> frame::can_tell_row(
            text,
            first_row,
            end_row,
            range.start.row as int,
        ) && frame::can_tell_row(text, first_row, end_row, range.end.row as int)
    }

    /// Whether a frame can be drawn.
    pub fn can_render(&self, buffer: &Buffer, first_row: u32, end_row: u32) -> (can_render: bool)
        requires
            buffer.wf(),
            first_row < text::rows(buffer@.text).len(),
            first_row <= end_row,
        ensures
            can_render == self.can_draw(buffer@.text, first_row as int, end_row as int),
    {
        match &self.horizontal_autoscroll {
            Some(range) => frame::check_row(buffer, first_row, end_row, range.start.row)
                && frame::check_row(buffer, first_row, end_row, range.end.row),
            None => true,
        }
    }

    /// Draws the selections in a range of the text. The selection sets of this
    /// replica come in any order.
    fn render_selections(&self, buffer: &Buffer, range: &Range<Point>) -> (props: Vec<
        SelectionProps,
    >)
        requires
            buffer.wf(),
            !range.end.before(range.start),
        ensures
            frame::shows(buffer@, *range, props@),
    {
        let ranges = buffer.selection_ranges().unwrap();
        frame::render_ranges(&ranges, range, buffer.max_point().unwrap())
    }

    /// Draws a frame, from the row at the top of the view up to the one below its
    /// bottom.
    pub fn render(&mut self, buffer: &Buffer, first_row: u32, end_row: u32) -> (frame: Frame)
        requires
            buffer.wf(),
            first_row < text::rows(buffer@.text).len(),
            first_row <= end_row,
            old(self).can_draw(buffer@.text, first_row as int, end_row as int),
        ensures
            frame.first_visible_row == first_row,
            frame.total_row_count == text::rows(buffer@.text).len(),
            frame::line_texts(frame.lines@) == frame::row_texts(
                frame::visible_rows(buffer@.text, first_row as int, end_row as int),
            ),
            exists|row: int| #[trigger]
                text::is_longest_row(buffer@.text, row) && frame.longest_line@ == utf16::lossy(
                    text::rows(buffer@.text)[row],
                ),
            match old(self)@.horizontal_autoscroll {
                Some(range) => frame.horizontal_autoscroll matches Some(scroll) && scroll.start
                    == range.start && scroll.end == range.end && scroll.start_line@ == utf16::lossy(
                    text::rows(buffer@.text)[range.start.row as int],
                ) && scroll.end_line@ == utf16::lossy(
                    text::rows(buffer@.text)[range.end.row as int],
                ),
                None => frame.horizontal_autoscroll is None,
            },
            frame.horizontal_margin == HORIZONTAL_MARGIN,
            frame::shows(
                buffer@,
                Range {
                    start: Point { row: first_row, column: 0 },
                    end: Point { row: end_row, column: 0 },
                },
                frame.selections@,
            ),
            final(self)@ == (BufferViewModel { horizontal_autoscroll: None, ..old(self)@ }),
    {
        proof {
            buffer.law_selections_lie_in_text();
            text::lemma_rows_len(buffer@.text);
        }
        let start = Point::new(first_row, 0);
        let end = Point::new(end_row, 0);
        let lines = frame::visible_lines(buffer, first_row, end_row);
        let longest_row: u32 = buffer.longest_row().unwrap();
        let longest_line: String = if first_row <= longest_row && longest_row < end_row {
            frame::tell_row(buffer, &lines, first_row, end_row, longest_row)
        } else {
            utf16::decode_lossy(&buffer.line(longest_row).unwrap())
        };
        let horizontal_autoscroll = match self.horizontal_autoscroll.take() {
            Some(range) => {
                let start_line = frame::tell_row(
                    buffer,
                    &lines,
                    first_row,
                    end_row,
                    range.start.row,
                );
                let end_line = frame::tell_row(buffer, &lines, first_row, end_row, range.end.row);
                Some(
                    HorizontalAutoscroll {
                        start: range.start,
                        start_line,
                        end: range.end,
                        end_line,
                    },
                )
            },
            None => None,
        };
        let max_point = buffer.max_point().unwrap();
        let selections = self.render_selections(buffer, &(start..end));
        Frame {
            first_visible_row: first_row,
            total_row_count: max_point.row + 1,
            lines,
            longest_line,
            horizontal_autoscroll,
            horizontal_margin: HORIZONTAL_MARGIN,
            selections,
        }
    }

    /// Takes an action.
    pub fn dispatch_action(&mut self, buffer: &mut Buffer, action: BufferViewAction)
        requires
            old(buffer).wf(),
            old(self).with(old(buffer)@).is_ready_for(action),
            old(self).with(old(buffer)@).has_room_to(action),
            old(self).with(old(buffer)@).reads_for(action),
        ensures
            final(buffer).wf(),
            old(self).with(old(buffer)@).has_selection() || action is SetCursorPosition
                ==> final(self).with(final(buffer)@).has_selection(),
            final(self).with(final(buffer)@) == old(self).with(old(buffer)@).after(action),
    {
        match action {
            BufferViewAction::UpdateScrollTop => self.set_scroll_top(),
            BufferViewAction::SetDimensions { .. } => {
                self.set_width(buffer);
                self.set_height(buffer);
            },
            BufferViewAction::Edit { text } => self.edit(buffer, text.as_str()),
            BufferViewAction::Backspace => self.backspace(buffer),
            BufferViewAction::Delete => self.delete(buffer),
            BufferViewAction::MoveUp => self.move_up(buffer),
            BufferViewAction::MoveDown => self.move_down(buffer),
            BufferViewAction::MoveLeft => self.move_left(buffer),
            BufferViewAction::MoveRight => self.move_right(buffer),
            BufferViewAction::MoveToBeginningOfWord => self.move_to_beginning_of_word(buffer),
            BufferViewAction::MoveToEndOfWord => self.move_to_end_of_word(buffer),
            BufferViewAction::MoveToBeginningOfLine => self.move_to_beginning_of_line(buffer),
            BufferViewAction::MoveToEndOfLine => self.move_to_end_of_line(buffer),
            BufferViewAction::MoveToTop => self.move_to_top(buffer),
            BufferViewAction::MoveToBottom => self.move_to_bottom(buffer),
            BufferViewAction::SelectUp => self.select_up(buffer),
            BufferViewAction::SelectDown => self.select_down(buffer),
            BufferViewAction::SelectLeft => self.select_left(buffer),
            BufferViewAction::SelectRight => self.select_right(buffer),
            BufferViewAction::SelectTo { row, column } => self.select_to(
                buffer,
                Point::new(row, column),
            ),
            BufferViewAction::SelectToBeginningOfWord => self.select_to_beginning_of_word(buffer),
            BufferViewAction::SelectToEndOfWord => self.select_to_end_of_word(buffer),
            BufferViewAction::SelectToBeginningOfLine => self.select_to_beginning_of_line(buffer),
            BufferViewAction::SelectToEndOfLine => self.select_to_end_of_line(buffer),
            BufferViewAction::SelectToTop => self.select_to_top(buffer),
            BufferViewAction::SelectToBottom => self.select_to_bottom(buffer),
            BufferViewAction::SelectWord => self.select_word(buffer),
            BufferViewAction::SelectLine => self.select_line(buffer),
            BufferViewAction::AddSelectionAbove => self.add_selection_above(buffer),
            BufferViewAction::AddSelectionBelow => self.add_selection_below(buffer),
            BufferViewAction::SetCursorPosition { row, column, autoscroll } => {
                self.set_cursor_position(buffer, Point::new(row, column), autoscroll)
            },
        }
    }

    /// Whether the characters that an action looks at can be read.
    fn can_read_for(&self, buffer: &Buffer, action: &BufferViewAction) -> (can_read: bool)
        requires
            buffer.wf(),
            self.with(buffer@).is_ready_for(*action),
        ensures
            can_read == self.with(buffer@).reads_for(*action),
    {
        let before: bool = match action {
            BufferViewAction::MoveToBeginningOfWord
            | BufferViewAction::SelectToBeginningOfWord
            | BufferViewAction::SelectWord => true,
            _ => false,
        };
        let after: bool = match action {
            BufferViewAction::MoveToEndOfWord
            | BufferViewAction::SelectToEndOfWord
            | BufferViewAction::SelectWord => true,
            _ => false,
        };
        if !before && !after {
            return true;
        }
        let selections = self.selections(buffer);
        let mut i: usize = 0;
        while i < selections.len()
            invariant
                i <= selections.len(),
                buffer.wf(),
                selections@ == self.with(buffer@).selections(),
                before == (action is MoveToBeginningOfWord || action is SelectToBeginningOfWord
                    || action is SelectWord),
                after == (action is MoveToEndOfWord || action is SelectToEndOfWord
                    || action is SelectWord),
                action.motion() matches Some(motion) ==> forall|j: int|
                    0 <= j < i ==> motion.reads(buffer@.text, #[trigger] selections@[j]),
            decreases selections.len() - i,
        {
            let head = selections[i].end;
            if before && !movement::reads_word_before(buffer, head) {
                assert(!(action.motion()->0).reads(buffer@.text, selections@[i as int]));
                return false;
            }
            if after && !movement::reads_word_after(buffer, head) {
                assert(!(action.motion()->0).reads(buffer@.text, selections@[i as int]));
                return false;
            }
            i += 1;
        }
        true
    }

    /// Takes an action where the characters that it looks at can be read, and says
    /// whether it did.
    pub fn try_dispatch_action(&mut self, buffer: &mut Buffer, action: BufferViewAction) -> (taken:
        bool)
        requires
            old(buffer).wf(),
            old(self).with(old(buffer)@).is_ready_for(action),
            old(self).with(old(buffer)@).has_room_to(action),
        ensures
            final(buffer).wf(),
            old(self).with(old(buffer)@).has_selection() ==> final(self).with(
                final(buffer)@,
            ).has_selection(),
            taken == old(self).with(old(buffer)@).reads_for(action),
            taken ==> final(self).with(final(buffer)@) == old(self).with(old(buffer)@).after(
                action,
            ),
            !taken ==> final(self).with(final(buffer)@) == old(self).with(old(buffer)@),
    {
        if self.can_read_for(buffer, &action) {
            self.dispatch_action(buffer, action);
            true
        } else {
            false
        }
    }
}

} // verus!
