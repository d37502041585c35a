//! Moving and selecting in a view of a buffer.

use xray::buffer::Buffer;
use xray::error::Error;
use xray::point::Point;
use xray::views::buffer::BufferView;
use xray::views::frame::SelectionProps;

fn basic() -> Buffer {
    Buffer::new(0, Vec::new())
}

fn render_selections(editor: &BufferView, buffer: &Buffer) -> Vec<SelectionProps> {
    editor
        .selections(buffer)
        .iter()
        .map(|s| SelectionProps::from(s))
        .collect()
}

fn empty_selection(row: u32, column: u32) -> SelectionProps {
    let range = Point::new(row, column)..Point::new(row, column);
    SelectionProps::from(&range)
}

fn selection(start: (u32, u32), end: (u32, u32)) -> SelectionProps {
    SelectionProps {
        user_id: None,
        start: Point::new(start.0, start.1),
        end: Point::new(end.0, end.1),
        reversed: false,
        remote: false,
    }
}

fn rev_selection(start: (u32, u32), end: (u32, u32)) -> SelectionProps {
    SelectionProps {
        user_id: None,
        start: Point::new(start.0, start.1),
        end: Point::new(end.0, end.1),
        reversed: true,
        remote: false,
    }
}

#[test]
fn test_cursor_movement() -> Result<(), Error> {
    let mut buffer = basic();
    let mut editor = BufferView::new(&mut buffer);
    buffer.edit(vec![0..0], "abc")?;
    buffer.edit(vec![3..3], "\n")?;
    buffer.edit(vec![4..4], "\ndef")?;
    assert_eq!(render_selections(&editor, &buffer), vec![empty_selection(0, 0)]);

    editor.move_right(&mut buffer);
    assert_eq!(render_selections(&editor, &buffer), vec![empty_selection(0, 1)]);

    // Wraps across lines moving right
    for _ in 0..3 {
        editor.move_right(&mut buffer);
    }
    assert_eq!(render_selections(&editor, &buffer), vec![empty_selection(1, 0)]);

    // Stops at end
    for _ in 0..4 {
        editor.move_right(&mut buffer);
    }
    assert_eq!(render_selections(&editor, &buffer), vec![empty_selection(2, 3)]);

    // Wraps across lines moving left
    for _ in 0..4 {
        editor.move_left(&mut buffer);
    }
    assert_eq!(render_selections(&editor, &buffer), vec![empty_selection(1, 0)]);

    // Stops at start
    for _ in 0..4 {
        editor.move_left(&mut buffer);
    }
    assert_eq!(render_selections(&editor, &buffer), vec![empty_selection(0, 0)]);

    // Moves down and up at column 0
    editor.move_down(&mut buffer);
    assert_eq!(render_selections(&editor, &buffer), vec![empty_selection(1, 0)]);
    editor.move_up(&mut buffer);
    assert_eq!(render_selections(&editor, &buffer), vec![empty_selection(0, 0)]);

    Ok(())
}

#[test]
fn test_selection_movement() -> Result<(), Error> {
    let mut buffer = basic();
    let mut editor = BufferView::new(&mut buffer);
    buffer.edit(vec![0..0], "abc")?;
    buffer.edit(vec![3..3], "\n")?;
    buffer.edit(vec![4..4], "\ndef")?;

    assert_eq!(render_selections(&editor, &buffer), vec![empty_selection(0, 0)]);

    editor.select_right(&mut buffer);
    assert_eq!(render_selections(&editor, &buffer), vec![selection((0, 0), (0, 1))]);

    // Selecting right wraps across newlines
    for _ in 0..3 {
        editor.select_right(&mut buffer);
    }
    assert_eq!(render_selections(&editor, &buffer), vec![selection((0, 0), (1, 0))]);

    // Moving right with a non-empty selection clears the selection
    editor.move_right(&mut buffer);
    assert_eq!(render_selections(&editor, &buffer), vec![empty_selection(1, 0)]);
    editor.move_right(&mut buffer);
    assert_eq!(render_selections(&editor, &buffer), vec![empty_selection(2, 0)]);

    // Selecting left wraps across newlines
    editor.select_left(&mut buffer);
    assert_eq!(
        render_selections(&editor, &buffer),
        vec![rev_selection((1, 0), (2, 0))]
    );
    editor.select_left(&mut buffer);
    assert_eq!(
        render_selections(&editor, &buffer),
        vec![rev_selection((0, 3), (2, 0))]
    );

    // Moving left with a non-empty selection clears the selection
    editor.move_left(&mut buffer);
    assert_eq!(render_selections(&editor, &buffer), vec![empty_selection(0, 3)]);

    // Reverse is updated correctly when selecting left and right
    editor.select_left(&mut buffer);
    assert_eq!(
        render_selections(&editor, &buffer),
        vec![rev_selection((0, 2), (0, 3))]
    );
    editor.select_right(&mut buffer);
    assert_eq!(render_selections(&editor, &buffer), vec![empty_selection(0, 3)]);
    editor.select_right(&mut buffer);
    assert_eq!(render_selections(&editor, &buffer), vec![selection((0, 3), (1, 0))]);
    editor.select_left(&mut buffer);
    assert_eq!(render_selections(&editor, &buffer), vec![empty_selection(0, 3)]);
    editor.select_left(&mut buffer);
    assert_eq!(
        render_selections(&editor, &buffer),
        vec![rev_selection((0, 2), (0, 3))]
    );

    Ok(())
}

#[test]
fn test_move_to_beginning_or_end_of_word() -> Result<(), Error> {
    let mut buffer = basic();
    let mut editor = BufferView::new(&mut buffer);
    buffer.edit(vec![0..0], "abc def\nghi.jkl")?;
    assert_eq!(render_selections(&editor, &buffer), vec![empty_selection(0, 0)]);

    editor.move_to_end_of_word(&mut buffer);
    assert_eq!(render_selections(&editor, &buffer), vec![empty_selection(0, 3)]);
    editor.move_to_end_of_word(&mut buffer);
    assert_eq!(render_selections(&editor, &buffer), vec![empty_selection(0, 4)]);
    editor.move_to_end_of_word(&mut buffer);
    assert_eq!(render_selections(&editor, &buffer), vec![empty_selection(0, 7)]);
    editor.move_to_end_of_word(&mut buffer);
    assert_eq!(render_selections(&editor, &buffer), vec![empty_selection(1, 0)]);
    editor.move_to_end_of_word(&mut buffer);
    assert_eq!(render_selections(&editor, &buffer), vec![empty_selection(1, 3)]);
    editor.move_to_end_of_word(&mut buffer);
    assert_eq!(render_selections(&editor, &buffer), vec![empty_selection(1, 4)]);
    editor.move_to_end_of_word(&mut buffer);
    assert_eq!(render_selections(&editor, &buffer), vec![empty_selection(1, 7)]);
    editor.move_to_end_of_word(&mut buffer);
    assert_eq!(render_selections(&editor, &buffer), vec![empty_selection(1, 7)]);

    editor.move_to_beginning_of_word(&mut buffer);
    assert_eq!(render_selections(&editor, &buffer), vec![empty_selection(1, 4)]);
    editor.move_to_beginning_of_word(&mut buffer);
    assert_eq!(render_selections(&editor, &buffer), vec![empty_selection(1, 3)]);
    editor.move_to_beginning_of_word(&mut buffer);
    assert_eq!(render_selections(&editor, &buffer), vec![empty_selection(1, 0)]);
    editor.move_to_beginning_of_word(&mut buffer);
    assert_eq!(render_selections(&editor, &buffer), vec![empty_selection(0, 7)]);
    editor.move_to_beginning_of_word(&mut buffer);
    assert_eq!(render_selections(&editor, &buffer), vec![empty_selection(0, 4)]);
    editor.move_to_beginning_of_word(&mut buffer);
    assert_eq!(render_selections(&editor, &buffer), vec![empty_selection(0, 3)]);
    editor.move_to_beginning_of_word(&mut buffer);
    assert_eq!(render_selections(&editor, &buffer), vec![empty_selection(0, 0)]);
    editor.move_to_beginning_of_word(&mut buffer);
    assert_eq!(render_selections(&editor, &buffer), vec![empty_selection(0, 0)]);

    Ok(())
}

#[test]
fn test_select_to_beginning_or_end_of_word() -> Result<(), Error> {
    let mut buffer = basic();
    let mut editor = BufferView::new(&mut buffer);
    buffer.edit(vec![0..0], "abc def\nghi.jkl")?;
    assert_eq!(render_selections(&editor, &buffer), vec![empty_selection(0, 0)]);

    editor.select_to_end_of_word(&mut buffer);
    assert_eq!(render_selections(&editor, &buffer), vec![selection((0, 0), (0, 3))]);
    editor.select_to_end_of_word(&mut buffer);
    assert_eq!(render_selections(&editor, &buffer), vec![selection((0, 0), (0, 4))]);
    editor.select_to_end_of_word(&mut buffer);
    assert_eq!(render_selections(&editor, &buffer), vec![selection((0, 0), (0, 7))]);
    editor.select_to_end_of_word(&mut buffer);
    assert_eq!(render_selections(&editor, &buffer), vec![selection((0, 0), (1, 0))]);
    editor.select_to_end_of_word(&mut buffer);
    assert_eq!(render_selections(&editor, &buffer), vec![selection((0, 0), (1, 3))]);
    editor.select_to_end_of_word(&mut buffer);
    assert_eq!(render_selections(&editor, &buffer), vec![selection((0, 0), (1, 4))]);
    editor.select_to_end_of_word(&mut buffer);
    assert_eq!(render_selections(&editor, &buffer), vec![selection((0, 0), (1, 7))]);
    editor.select_to_end_of_word(&mut buffer);
    assert_eq!(render_selections(&editor, &buffer), vec![selection((0, 0), (1, 7))]);

    editor.move_right(&mut buffer);
    assert_eq!(render_selections(&editor, &buffer), vec![empty_selection(1, 7)]);

    editor.select_to_beginning_of_word(&mut buffer);
    assert_eq!(
        render_selections(&editor, &buffer),
        vec![rev_selection((1, 4), (1, 7))]
    );
    editor.select_to_beginning_of_word(&mut buffer);
    assert_eq!(
        render_selections(&editor, &buffer),
        vec![rev_selection((1, 3), (1, 7))]
    );
    editor.select_to_beginning_of_word(&mut buffer);
    assert_eq!(
        render_selections(&editor, &buffer),
        vec![rev_selection((1, 0), (1, 7))]
    );
    editor.select_to_beginning_of_word(&mut buffer);
    assert_eq!(
        render_selections(&editor, &buffer),
        vec![rev_selection((0, 7), (1, 7))]
    );
    editor.select_to_beginning_of_word(&mut buffer);
    assert_eq!(
        render_selections(&editor, &buffer),
        vec![rev_selection((0, 4), (1, 7))]
    );
    editor.select_to_beginning_of_word(&mut buffer);
    assert_eq!(
        render_selections(&editor, &buffer),
        vec![rev_selection((0, 3), (1, 7))]
    );
    editor.select_to_beginning_of_word(&mut buffer);
    assert_eq!(
        render_selections(&editor, &buffer),
        vec![rev_selection((0, 0), (1, 7))]
    );
    editor.select_to_beginning_of_word(&mut buffer);
    assert_eq!(
        render_selections(&editor, &buffer),
        vec![rev_selection((0, 0), (1, 7))]
    );

    Ok(())
}

#[test]
fn test_move_to_beginning_or_end_of_line() -> Result<(), Error> {
    let mut buffer = basic();
    let mut editor = BufferView::new(&mut buffer);
    buffer.edit(vec![0..0], "abcdef\nghijklmno")?;
    assert_eq!(render_selections(&editor, &buffer), vec![empty_selection(0, 0)]);

    editor.move_to_end_of_line(&mut buffer);
    assert_eq!(render_selections(&editor, &buffer), vec![empty_selection(0, 6)]);
    editor.move_to_end_of_line(&mut buffer);
    assert_eq!(render_selections(&editor, &buffer), vec![empty_selection(0, 6)]);
    editor.move_right(&mut buffer);
    editor.move_to_end_of_line(&mut buffer);
    assert_eq!(render_selections(&editor, &buffer), vec![empty_selection(1, 9)]);

    editor.move_to_beginning_of_line(&mut buffer);
    assert_eq!(render_selections(&editor, &buffer), vec![empty_selection(1, 0)]);
    editor.move_to_beginning_of_line(&mut buffer);
    assert_eq!(render_selections(&editor, &buffer), vec![empty_selection(1, 0)]);
    editor.move_left(&mut buffer);
    editor.move_to_beginning_of_line(&mut buffer);
    assert_eq!(render_selections(&editor, &buffer), vec![empty_selection(0, 0)]);

    Ok(())
}

#[test]
fn test_select_to_beginning_or_end_of_line() -> Result<(), Error> {
    let mut buffer = basic();
    let mut editor = BufferView::new(&mut buffer);
    buffer.edit(vec![0..0], "abcdef\nghijklmno")?;
    assert_eq!(render_selections(&editor, &buffer), vec![empty_selection(0, 0)]);

    editor.select_to_end_of_line(&mut buffer);
    assert_eq!(render_selections(&editor, &buffer), vec![selection((0, 0), (0, 6))]);
    editor.select_to_end_of_line(&mut buffer);
    assert_eq!(render_selections(&editor, &buffer), vec![selection((0, 0), (0, 6))]);
    editor.move_right(&mut buffer);
    editor.move_right(&mut buffer);
    editor.select_to_end_of_line(&mut buffer);
    assert_eq!(render_selections(&editor, &buffer), vec![selection((1, 0), (1, 9))]);

    editor.move_right(&mut buffer);
    editor.select_to_beginning_of_line(&mut buffer);
    assert_eq!(
        render_selections(&editor, &buffer),
        vec![rev_selection((1, 0), (1, 9))]
    );
    editor.select_to_beginning_of_line(&mut buffer);
    assert_eq!(
        render_selections(&editor, &buffer),
        vec![rev_selection((1, 0), (1, 9))]
    );
    editor.move_left(&mut buffer);
    editor.move_left(&mut buffer);
    editor.select_to_beginning_of_line(&mut buffer);
    assert_eq!(
        render_selections(&editor, &buffer),
        vec![rev_selection((0, 0), (0, 6))]
    );

    Ok(())
}

#[test]
fn test_select_word() -> Result<(), Error> {
    let mut buffer = basic();
    let mut editor = BufferView::new(&mut buffer);
    buffer.edit(vec![0..0], "abc.def---ghi")?;

    editor.set_cursor_position(&mut buffer, Point::new(0, 5), false);
    editor.select_word(&mut buffer);
    assert_eq!(render_selections(&editor, &buffer), vec![selection((0, 4), (0, 7))]);

    editor.set_cursor_position(&mut buffer, Point::new(0, 8), false);
    editor.select_word(&mut buffer);
    assert_eq!(render_selections(&editor, &buffer), vec![selection((0, 7), (0, 10))]);

    Ok(())
}

#[test]
fn test_select_line() -> Result<(), Error> {
    let mut buffer = basic();
    let mut editor = BufferView::new(&mut buffer);
    buffer.edit(vec![0..0], "abc\ndef\nghi")?;

    editor.set_cursor_position(&mut buffer, Point::new(0, 2), false);
    editor.select_line(&mut buffer);
    assert_eq!(render_selections(&editor, &buffer), vec![selection((0, 0), (1, 0))]);

    editor.set_cursor_position(&mut buffer, Point::new(2, 1), false);
    editor.select_line(&mut buffer);
    assert_eq!(render_selections(&editor, &buffer), vec![selection((2, 0), (2, 3))]);

    Ok(())
}

#[test]
fn test_move_to_top_or_bottom() -> Result<(), Error> {
    let mut buffer = basic();
    let mut editor = BufferView::new(&mut buffer);
    buffer.edit(vec![0..0], "abc\ndef\nghi")?;
    assert_eq!(render_selections(&editor, &buffer), vec![empty_selection(0, 0)]);

    editor.move_to_bottom(&mut buffer);
    assert_eq!(render_selections(&editor, &buffer), vec![empty_selection(2, 3)]);
    editor.move_to_top(&mut buffer);
    assert_eq!(render_selections(&editor, &buffer), vec![empty_selection(0, 0)]);

    Ok(())
}

#[test]
fn test_select_to_top_or_bottom() -> Result<(), Error> {
    let mut buffer = basic();
    let mut editor = BufferView::new(&mut buffer);
    buffer.edit(vec![0..0], "abc\ndef\nghi")?;
    assert_eq!(render_selections(&editor, &buffer), vec![empty_selection(0, 0)]);

    editor.select_to_bottom(&mut buffer);
    assert_eq!(render_selections(&editor, &buffer), vec![selection((0, 0), (2, 3))]);

    editor.move_right(&mut buffer);
    editor.select_to_top(&mut buffer);
    assert_eq!(
        render_selections(&editor, &buffer),
        vec![rev_selection((0, 0), (2, 3))]
    );

    Ok(())
}
