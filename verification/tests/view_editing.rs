//! Typing, deleting and drawing in a view of a buffer.

use xray::buffer::{Buffer, RemoteSelections, SelectionSetId};
use xray::error::{Error, MemoError};
use xray::point::Point;
use xray::views::buffer::BufferView;
use xray::views::editor::{AutoScrollRequest, BufferViewAction};
use xray::views::frame::{query_selections, SelectionProps};

fn buffer_with(text: &str) -> Buffer {
    Buffer::new(0, text.encode_utf16().collect())
}

fn cursors(editor: &BufferView, buffer: &Buffer) -> Vec<(u32, u32)> {
    editor
        .selections(buffer)
        .iter()
        .map(|selection| {
            assert_eq!(selection.start, selection.end);
            (selection.end.row, selection.end.column)
        })
        .collect()
}

fn ranges(editor: &BufferView, buffer: &Buffer) -> Vec<((u32, u32), (u32, u32))> {
    editor
        .selections(buffer)
        .iter()
        .map(|selection| {
            (
                (selection.start.row, selection.start.column),
                (selection.end.row, selection.end.column),
            )
        })
        .collect()
}

fn select(
    buffer: &mut Buffer,
    set_id: SelectionSetId,
    ranges: Vec<((u32, u32), (u32, u32))>,
) {
    let ranges = ranges
        .into_iter()
        .map(|(start, end)| Point::new(start.0, start.1)..Point::new(end.0, end.1))
        .collect();
    buffer.replace_selection_set(set_id, ranges).unwrap();
}

#[test]
fn test_longest_line_in_frame() -> Result<(), Error> {
    let mut buffer = Buffer::new(0, Vec::new());
    buffer.edit(vec![0..0], "1\n1\n1\n1\n11\n1\n1")?;

    let mut editor = BufferView::new(&mut buffer);
    editor.set_height(&buffer);
    editor.set_line_height(&buffer);
    editor.set_scroll_top();

    // The view is two lines high, and scrolled down by two lines.
    let frame = editor.render(&buffer, 2, 4);
    assert_eq!(frame.longest_line, "11");

    Ok(())
}

#[test]
fn test_dropping_view_removes_selection_set() -> Result<(), Error> {
    let mut buffer = Buffer::new(0, Vec::new());
    let editor = BufferView::new(&mut buffer);
    let selection_set_id = editor.selection_set_id();
    assert!(buffer.selections(selection_set_id).is_ok());

    editor.close(&mut buffer);
    assert!(buffer.selections(selection_set_id).is_err());
    assert_eq!(
        buffer.selections(selection_set_id),
        Err(Error::Memo(MemoError::InvalidLocalSelectionSet(selection_set_id)))
    );

    Ok(())
}

#[test]
fn typing_replaces_each_selection() {
    let mut buffer = buffer_with("abcdefgh\nhijklmno");
    let mut editor = BufferView::new(&mut buffer);
    let id = editor.selection_set_id();
    select(
        &mut buffer,
        id,
        vec![((0, 0), (0, 2)), ((0, 5), (0, 3)), ((0, 7), (1, 1))],
    );
    editor.edit(&mut buffer, "-");
    assert_eq!(buffer.to_string(), "-c-fg-ijklmno");
    assert_eq!(cursors(&editor, &buffer), vec![(0, 1), (0, 3), (0, 6)]);
}

#[test]
fn typing_counts_bytes_and_newlines() {
    let mut buffer = buffer_with("12345");
    let mut editor = BufferView::new(&mut buffer);
    editor.move_right(&mut buffer);
    // A column counts code units, and the cursor moves on by bytes.
    editor.edit(&mut buffer, "ä");
    assert_eq!(buffer.to_string(), "1ä2345");
    assert_eq!(cursors(&editor, &buffer), vec![(0, 3)]);
    // A newline takes the cursor a row down, and leaves its column.
    editor.edit(&mut buffer, "\n");
    assert_eq!(buffer.to_string(), "1ä2\n345");
    assert_eq!(cursors(&editor, &buffer), vec![(1, 3)]);
    editor.edit(&mut buffer, "x\nyz");
    assert_eq!(buffer.to_string(), "1ä2\n345x\nyz");
    assert_eq!(cursors(&editor, &buffer), vec![(2, 2)]);
}

#[test]
fn backspace_undoes_typing() {
    // In the middle of a row, at its end and at its start.
    for (column, typed) in vec![(1, "x"), (3, "ä"), (3, "\n"), (0, "\n"), (0, "x")] {
        let mut buffer = buffer_with("abc\ndef");
        let mut editor = BufferView::new(&mut buffer);
        editor.set_cursor_position(&mut buffer, Point::new(0, column), false);
        editor.edit(&mut buffer, typed);
        assert_ne!(buffer.to_string(), "abc\ndef");
        editor.backspace(&mut buffer);
        assert_eq!(buffer.to_string(), "abc\ndef");
        assert_eq!(cursors(&editor, &buffer), vec![(0, column)]);
    }
}

#[test]
fn delete_is_right_and_backspace() {
    for point in vec![Point::new(0, 1), Point::new(0, 3), Point::new(1, 2)] {
        let mut buffer = buffer_with("abc\ndef");
        let mut editor = BufferView::new(&mut buffer);
        editor.set_cursor_position(&mut buffer, point, true);
        editor.delete(&mut buffer);

        let mut other_buffer = buffer_with("abc\ndef");
        let mut other = BufferView::new(&mut other_buffer);
        other.set_cursor_position(&mut other_buffer, point, true);
        other.move_right(&mut other_buffer);
        other.backspace(&mut other_buffer);

        assert_eq!(buffer.to_string(), other_buffer.to_string());
        assert_eq!(cursors(&editor, &buffer), cursors(&other, &other_buffer));
    }
}

#[test]
fn deleting_at_the_edges_of_the_text() {
    let mut buffer = buffer_with("ab");
    let mut editor = BufferView::new(&mut buffer);
    editor.backspace(&mut buffer);
    assert_eq!(buffer.to_string(), "ab");
    editor.move_to_bottom(&mut buffer);
    editor.delete(&mut buffer);
    assert_eq!(buffer.to_string(), "ab");
    // Where a selection is not empty, that is what is deleted.
    editor.select_left(&mut buffer);
    editor.delete(&mut buffer);
    assert_eq!(buffer.to_string(), "a");
    editor.select_to_top(&mut buffer);
    editor.backspace(&mut buffer);
    assert_eq!(buffer.to_string(), "");
    assert_eq!(cursors(&editor, &buffer), vec![(0, 0)]);
}

#[test]
fn selections_above_have_room() {
    let text = "abcdefghijk\nlmnop\n\n\nqrstuvwxyz\n";
    let mut buffer = buffer_with(text);
    let mut editor = BufferView::new(&mut buffer);
    let id = editor.selection_set_id();
    select(
        &mut buffer,
        id,
        vec![
            ((1, 0), (1, 0)),
            ((4, 1), (4, 3)),
            ((4, 6), (4, 6)),
            ((4, 7), (4, 9)),
            ((0, 1), (1, 2)),
        ],
    );
    editor.add_selection_above(&mut buffer);
    assert_eq!(
        ranges(&editor, &buffer),
        vec![
            ((1, 0), (1, 0)),
            ((0, 0), (0, 0)),
            ((4, 1), (4, 3)),
            ((1, 1), (1, 3)),
            ((4, 6), (4, 6)),
            ((1, 5), (1, 5)),
            ((4, 7), (4, 9)),
            ((0, 7), (0, 9)),
        ]
    );

    select(&mut buffer, id, vec![((0, 3), (0, 3))]);
    assert!(editor.copies_above(&buffer).is_empty());
}

#[test]
fn selections_below_have_room() {
    let text = "abcdefgh\nijklm\n\n\nnopqrstuvwx\nyz";
    let mut buffer = buffer_with(text);
    let mut editor = BufferView::new(&mut buffer);
    let id = editor.selection_set_id();
    select(
        &mut buffer,
        id,
        vec![((0, 0), (0, 0)), ((0, 4), (0, 8)), ((1, 4), (1, 4)), ((4, 5), (4, 6))],
    );
    editor.add_selection_below(&mut buffer);
    assert_eq!(
        ranges(&editor, &buffer),
        vec![
            ((0, 0), (0, 0)),
            ((1, 0), (1, 0)),
            ((0, 4), (0, 8)),
            ((1, 4), (1, 5)),
            ((1, 4), (1, 4)),
            ((4, 4), (4, 4)),
        ]
    );

    select(&mut buffer, id, vec![((5, 1), (5, 1))]);
    assert!(editor.copies_below(&buffer).is_empty());
}

#[test]
fn cursor_position_is_clipped_to_the_end() {
    let mut buffer = buffer_with("abc\ndef");
    let mut editor = BufferView::new(&mut buffer);
    editor.set_cursor_position(&mut buffer, Point::new(7, 0), true);
    assert_eq!(cursors(&editor, &buffer), vec![(1, 3)]);
    editor.set_cursor_position(&mut buffer, Point::new(0, 9), false);
    assert_eq!(cursors(&editor, &buffer), vec![(0, 3)]);
}

#[test]
fn added_selection_is_a_set_of_its_own() {
    let mut buffer = buffer_with("abc\ndef");
    let mut editor = BufferView::new(&mut buffer);
    let id = editor.selection_set_id();
    editor.add_selection(&mut buffer, Point::new(0, 1), Point::new(9, 9));
    assert_eq!(cursors(&editor, &buffer), vec![(0, 0)]);
    let added = buffer.selections(id + 1).unwrap();
    assert_eq!(added, vec![Point::new(0, 1)..Point::new(1, 3)]);
}

#[test]
fn removing_a_set_leaves_the_others() {
    let mut buffer = buffer_with("abc");
    let first = buffer.add_selection_set(vec![Point::new(0, 1)..Point::new(0, 2)]).unwrap();
    let second = buffer.add_selection_set(Vec::new()).unwrap();
    assert_ne!(first, second);
    buffer.remove_selection_set(second).unwrap();
    assert_eq!(
        buffer.selections(first).unwrap(),
        vec![Point::new(0, 1)..Point::new(0, 2)]
    );
    let error = Error::Memo(MemoError::InvalidLocalSelectionSet(second));
    assert_eq!(buffer.remove_selection_set(second), Err(error));
    // A number is not given out twice.
    let third = buffer.add_selection_set(Vec::new()).unwrap();
    assert!(third != first && third != second);
}

#[test]
fn sets_are_replaced_by_what_a_function_makes_of_them() {
    let mut buffer = buffer_with("abc");
    let set = buffer.add_selection_set(vec![Point::new(0, 1)..Point::new(0, 2)]).unwrap();
    buffer
        .mutate_selections(set, |buffer, mut ranges| {
            ranges[0].end = buffer.max_point().unwrap();
            ranges.push(Point::new(7, 7)..Point::new(0, 0));
            ranges
        })
        .unwrap();
    assert_eq!(
        buffer.selections(set).unwrap(),
        vec![
            Point::new(0, 1)..Point::new(0, 3),
            Point::new(0, 3)..Point::new(0, 0),
        ]
    );
    let error = Error::Memo(MemoError::InvalidLocalSelectionSet(set + 1));
    assert_eq!(
        buffer.mutate_selections(set + 1, |_, ranges| ranges),
        Err(error)
    );
    let operations = buffer.take_outgoing();
    assert_eq!(operations.len(), 2);
    assert!(buffer.take_outgoing().is_empty());
}

#[test]
fn edits_move_selections_along() {
    let mut buffer = buffer_with("abc\ndef");
    let set = buffer.add_selection_set(vec![Point::new(0, 1)..Point::new(1, 1)]).unwrap();
    buffer.edit(vec![0..0], "xy\n").unwrap();
    assert_eq!(
        buffer.selections(set).unwrap(),
        vec![Point::new(1, 1)..Point::new(2, 1)]
    );
    buffer.edit(vec![0..5], "").unwrap();
    assert_eq!(buffer.to_string(), "c\ndef");
    assert_eq!(
        buffer.selections(set).unwrap(),
        vec![Point::new(0, 0)..Point::new(1, 1)]
    );
    // An edit of no ranges changes nothing.
    buffer.edit(Vec::new(), "zzz").unwrap();
    assert_eq!(buffer.to_string(), "c\ndef");
}

#[test]
fn deleting_what_was_inserted_gives_the_text_back() {
    let mut buffer = buffer_with("abc");
    buffer.edit(vec![1..1], "xyz").unwrap();
    assert_eq!(buffer.to_string(), "axyzbc");
    buffer.edit(vec![1..4], "").unwrap();
    assert_eq!(buffer.to_string(), "abc");
    // Each range is replaced where it was.
    buffer.edit(vec![0..1, 1..1, 2..3], "--").unwrap();
    assert_eq!(buffer.to_string(), "----b--");
    buffer.edit(vec![0..7], "abc").unwrap();
    // Offsets past the end stand for the end.
    buffer.edit(vec![9..12], "d").unwrap();
    assert_eq!(buffer.to_string(), "abcd");
}

#[test]
fn frame_shows_rows_and_selections() {
    let mut buffer = buffer_with("abc\ndef\nghi\njkl\nmno\npqr\nstu\nvwx\nyz");
    let mut editor = BufferView::new(&mut buffer);
    let id = editor.selection_set_id();
    select(
        &mut buffer,
        id,
        vec![((1, 2), (3, 1)), ((3, 2), (4, 1)), ((6, 0), (5, 2)), ((6, 3), (7, 2))],
    );
    let frame = editor.render(&buffer, 2, 6);
    assert_eq!(frame.first_visible_row, 2);
    assert_eq!(frame.total_row_count, 9);
    assert_eq!(frame.lines, vec!["ghi", "jkl", "mno", "pqr"]);
    assert_eq!(frame.longest_line.len(), 3);
    assert_eq!(frame.horizontal_margin, 4);
    assert!(frame.horizontal_autoscroll.is_none());
    let drawn: Vec<(Point, Point, bool)> = frame
        .selections
        .iter()
        .map(|props| (props.start, props.end, props.reversed))
        .collect();
    assert_eq!(
        drawn,
        vec![
            (Point::new(1, 2), Point::new(3, 1), false),
            (Point::new(3, 2), Point::new(4, 1), false),
        ]
    );
}

#[test]
fn frame_ends_with_the_text() {
    let mut buffer = buffer_with("abc\ndef\nghi");
    let mut editor = BufferView::new(&mut buffer);
    editor.move_to_bottom(&mut buffer);
    let frame = editor.render(&buffer, 2, 5);
    assert_eq!(frame.lines, vec!["ghi"]);
    assert_eq!(
        frame.selections,
        vec![SelectionProps {
            user_id: None,
            start: Point::new(2, 3),
            end: Point::new(2, 3),
            reversed: false,
            remote: false,
        }]
    );
    // A view without height shows one row, but not the last.
    assert_eq!(editor.render(&buffer, 1, 1).lines, vec!["def"]);
    assert!(editor.render(&buffer, 2, 2).lines.is_empty());
}

#[test]
fn some_actions_need_no_selection() {
    let mut buffer = buffer_with("abc\ndef");
    let mut editor = BufferView::new(&mut buffer);
    let set = editor.selection_set_id();
    buffer.replace_selection_set(set, Vec::new()).unwrap();
    for action in vec![
        BufferViewAction::UpdateScrollTop,
        BufferViewAction::SelectWord,
        BufferViewAction::SelectLine,
    ] {
        assert!(editor.try_dispatch_action(&mut buffer, action));
        assert!(editor.selections(&buffer).is_empty());
    }
    let action = BufferViewAction::SetCursorPosition {
        row: 1,
        column: 9,
        autoscroll: true,
    };
    assert!(editor.try_dispatch_action(&mut buffer, action));
    assert_eq!(editor.selections(&buffer), vec![Point::new(1, 3)..Point::new(1, 3)]);
}

#[test]
fn selections_are_kept_in_another_text() {
    let mut buffer = buffer_with("abc\ndef");
    let ranges = vec![Point::new(0, 1)..Point::new(0, 3), Point::new(1, 2)..Point::new(1, 2)];
    let set = buffer.add_selection_set(ranges).unwrap();
    let observer = buffer.updates();
    buffer.reset_text("xy".encode_utf16().collect());
    assert_eq!(buffer.to_string(), "xy");
    assert!(buffer.poll_update(observer));
    let local = buffer.selection_ranges().unwrap().local;
    assert_eq!(local[0].id, set);
    assert_eq!(
        local[0].ranges,
        vec![Point::new(0, 1)..Point::new(0, 2), Point::new(0, 2)..Point::new(0, 2)]
    );
}

#[test]
fn frame_shows_the_selections_of_others() {
    let mut buffer = buffer_with("abc\ndef");
    let mut editor = BufferView::new(&mut buffer);
    editor.move_to_bottom(&mut buffer);
    let text: Vec<u16> = "abc\ndef".encode_utf16().collect();
    buffer.refresh(
        text,
        vec![RemoteSelections {
            replica_id: 5,
            sets: vec![vec![Point::new(0, 2)..Point::new(0, 1)]],
        }],
    );
    let frame = editor.render(&buffer, 0, 1);
    assert_eq!(
        frame.selections,
        vec![SelectionProps {
            user_id: Some(5),
            start: Point::new(0, 1),
            end: Point::new(0, 2),
            reversed: true,
            remote: true,
        }]
    );
}

#[test]
fn queried_selections_touch_the_range() {
    let selections = vec![
        Point::new(0, 0)..Point::new(0, 1),
        Point::new(1, 0)..Point::new(1, 1),
        Point::new(2, 0)..Point::new(2, 1),
    ];
    let range = Point::new(1, 0)..Point::new(2, 0);
    let found = query_selections(&selections, &range, Point::new(3, 0));
    assert_eq!(found, vec![Point::new(1, 0)..Point::new(1, 1)]);
    // One that starts before the range and reaches into it counts too.
    let inner = Point::new(1, 1)..Point::new(2, 0);
    let wide = vec![Point::new(0, 0)..Point::new(1, 2)];
    assert_eq!(query_selections(&wide, &inner, Point::new(3, 0)), wide);
    // A range that ends past the end of the text holds all that follow.
    let found = query_selections(&selections, &range, Point::new(1, 1));
    assert_eq!(
        found,
        vec![
            Point::new(1, 0)..Point::new(1, 1),
            Point::new(2, 0)..Point::new(2, 1),
        ]
    );
}

#[test]
fn frame_tells_what_to_scroll_to() {
    let mut buffer = buffer_with("abc\ndef\nghi\njkl");
    let mut editor = BufferView::new(&mut buffer);
    editor.set_height(&buffer);
    editor.set_cursor_position(&mut buffer, Point::new(3, 1), true);
    let scroll = editor.take_scroll().unwrap();
    assert_eq!(scroll.range, Point::new(3, 1)..Point::new(3, 1));
    assert!(!scroll.center);
    assert!(editor.take_scroll().is_none());
    editor.did_autoscroll();
    assert!(editor.can_render(&buffer, 0, 2));
    // The row right below the frame cannot be told.
    assert!(!editor.can_render(&buffer, 0, 3));
    let frame = editor.render(&buffer, 0, 2);
    let shown = frame.horizontal_autoscroll.unwrap();
    assert_eq!(shown.start, Point::new(3, 1));
    assert_eq!(shown.start_line, "jkl");
    assert_eq!(shown.end_line, "jkl");
    assert!(editor.render(&buffer, 0, 2).horizontal_autoscroll.is_none());
}

#[test]
fn scrolling_waits_for_a_height() {
    let mut buffer = buffer_with("abc\ndef");
    let mut editor = BufferView::new(&mut buffer);
    editor.move_down(&mut buffer);
    assert!(editor.take_scroll().is_none());
    editor.will_mount();
    let scroll = editor.take_scroll().unwrap();
    assert_eq!(scroll.range, Point::new(1, 0)..Point::new(1, 0));
}

#[test]
fn rows_around_what_is_scrolled_to() {
    let request = AutoScrollRequest {
        range: Point::new(1, 0)..Point::new(8, 2),
        center: true,
    };
    assert_eq!(request.rows(), (0, 10));
    assert_eq!(request.twice_center_row(), 9);
}

#[test]
fn actions_do_what_they_say() {
    let mut buffer = buffer_with("ab cd\nef");
    let mut editor = BufferView::new(&mut buffer);
    editor.dispatch_action(&mut buffer, BufferViewAction::MoveToEndOfWord);
    assert_eq!(cursors(&editor, &buffer), vec![(0, 2)]);
    editor.dispatch_action(
        &mut buffer,
        BufferViewAction::Edit {
            text: "!".to_string(),
        },
    );
    assert_eq!(buffer.to_string(), "ab! cd\nef");
    editor.dispatch_action(&mut buffer, BufferViewAction::Backspace);
    editor.dispatch_action(&mut buffer, BufferViewAction::Delete);
    assert_eq!(buffer.to_string(), "abcd\nef");
    editor.dispatch_action(&mut buffer, BufferViewAction::AddSelectionBelow);
    assert_eq!(cursors(&editor, &buffer), vec![(0, 2), (1, 2)]);
    editor.dispatch_action(&mut buffer, BufferViewAction::SelectTo { row: 0, column: 0 });
    editor.dispatch_action(&mut buffer, BufferViewAction::SelectLine);
    assert_eq!(
        ranges(&editor, &buffer),
        vec![((0, 0), (1, 0)), ((0, 0), (1, 0))]
    );
    editor.dispatch_action(
        &mut buffer,
        BufferViewAction::SetCursorPosition {
            row: 1,
            column: 1,
            autoscroll: true,
        },
    );
    assert_eq!(cursors(&editor, &buffer), vec![(1, 1)]);
    let observer = editor.updates();
    editor.dispatch_action(
        &mut buffer,
        BufferViewAction::SetDimensions {
            width: 10,
            height: 20,
        },
    );
    assert!(editor.take_scroll().is_some());
    editor.dispatch_action(&mut buffer, BufferViewAction::UpdateScrollTop);
    let buffer_observer = buffer.updates();
    assert!(editor.poll(&mut buffer, observer, buffer_observer));
    assert!(!editor.poll(&mut buffer, observer, buffer_observer));
    buffer.edit(vec![0..0], "x").unwrap();
    assert!(editor.poll(&mut buffer, observer, buffer_observer));
    assert!(!editor.poll(&mut buffer, observer, buffer_observer));
}

#[test]
fn words_with_lone_surrogates_are_not_read() {
    let mut buffer = Buffer::new(0, vec![0x61, 0xD800, 0x62]);
    let mut editor = BufferView::new(&mut buffer);
    assert!(!editor.try_dispatch_action(&mut buffer, BufferViewAction::MoveToEndOfWord));
    assert_eq!(cursors(&editor, &buffer), vec![(0, 0)]);
    assert!(editor.try_dispatch_action(&mut buffer, BufferViewAction::MoveRight));
    assert_eq!(cursors(&editor, &buffer), vec![(0, 1)]);
    assert_eq!(buffer.to_string(), "a\u{FFFD}b");
}
