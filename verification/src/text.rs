//! Texts as sequences of UTF-16 code units, and the rows that newlines divide
//! them into.

use std::ops::Range;

use vstd::prelude::*;

use crate::point::Point;

verus! {

/// The code unit that ends a row.
pub const NEWLINE: u16 = 10;

/// The rows of a text: what stands between its newlines. An empty text has one
/// empty row, and a text that ends in a newline has an empty last row.
pub open spec fn rows(text: Seq<u16>) -> Seq<Seq<u16>>
    decreases text.len(),
{
    if text.len() == 0 {
        seq![Seq::<u16>::empty()]
    } else {
        let before = rows(text.drop_last());
        if text.last() == NEWLINE {
            before.push(Seq::<u16>::empty())
        } else {
            before.update(before.len() - 1, before.last().push(text.last()))
        }
    }
}

/// The offset at which a row begins: past every row before it and the newline
/// that ends each of them.
pub open spec fn row_start(text: Seq<u16>, row: int) -> int
    decreases row,
{
    if row <= 0 {
        0
    } else {
        row_start(text, row - 1) + rows(text)[row - 1].len() + 1
    }
}

/// Whether rows, columns and offsets of the text fit the types that hold them.
pub open spec fn fits(text: Seq<u16>) -> bool {
    text.len() < u32::MAX
}

/// Whether a point is a position in the text.
pub open spec fn is_position(text: Seq<u16>, point: Point) -> bool {
    point.row < rows(text).len() && point.column <= rows(text)[point.row as int].len()
}

/// The position at the end of the text.
pub open spec fn end_point(text: Seq<u16>) -> Point {
    Point { row: (rows(text).len() - 1) as u32, column: rows(text).last().len() as u32 }
}

/// The offset that a point stands for. A point past the end of its row stands
/// for the end of that row, and one past the last row for the end of the text.
pub open spec fn offset_of(text: Seq<u16>, point: Point) -> int {
    if point.row >= rows(text).len() {
        text.len() as int
    } else if point.column > rows(text)[point.row as int].len() {
        row_start(text, point.row as int) + rows(text)[point.row as int].len()
    } else {
        row_start(text, point.row as int) + point.column
    }
}

/// The position at an offset: where the text before it ends.
pub open spec fn point_at(text: Seq<u16>, offset: int) -> Point {
    end_point(text.take(offset))
}

/// The position that a point is taken for.
pub open spec fn clipped(text: Seq<u16>, point: Point) -> Point {
    point_at(text, offset_of(text, point))
}

/// There is a row, there are no more rows than newlines and one, and the rows
/// and the newlines between them make up the text.
pub proof fn lemma_rows_len(text: Seq<u16>)
    ensures
        1 <= rows(text).len() <= text.len() + 1,
        row_start(text, rows(text).len() - 1) + rows(text).last().len() == text.len(),
    decreases text.len(),
{
    if text.len() > 0 {
        let shorter = text.drop_last();
        lemma_rows_len(shorter);
        lemma_row_start_agrees(shorter, text, rows(shorter).len() - 1);
    }
}

/// Rows that two texts share begin at the same offset in both.
proof fn lemma_row_start_agrees(a: Seq<u16>, b: Seq<u16>, row: int)
    requires
        forall|r: int| 0 <= r < row ==> rows(a)[r] == #[trigger] rows(b)[r],
    ensures
        row_start(a, row) == row_start(b, row),
    decreases row,
{
    if row > 0 {
        lemma_row_start_agrees(a, b, row - 1);
        assert(rows(a)[row - 1] == rows(b)[row - 1]);
    }
}

/// A prefix of a text has the rows of the text up to its own last one, which is
/// the beginning of the row that stands in the text in its place.
pub proof fn lemma_rows_of_prefix(text: Seq<u16>, len: int)
    requires
        0 <= len <= text.len(),
    ensures
        1 <= rows(text.take(len)).len() <= rows(text).len(),
        forall|r: int|
            0 <= r < rows(text.take(len)).len() - 1 ==> rows(text.take(len))[r]
                == #[trigger] rows(text)[r],
        rows(text.take(len)).last().is_prefix_of(rows(text)[rows(text.take(len)).len() - 1]),
        forall|r: int|
            0 <= r < rows(text.take(len)).len() ==> row_start(text.take(len), r) == #[trigger] row_start(
                text,
                r,
            ),
    decreases text.len() - len,
{
    let prefix = text.take(len);
    lemma_rows_len(prefix);
    if len == text.len() {
        assert(prefix =~= text);
    } else {
        let longer = text.take(len + 1);
        assert(longer.drop_last() =~= prefix);
        lemma_rows_of_prefix(text, len + 1);
        let last = rows(prefix).len() - 1;
        if longer.last() == NEWLINE {
            assert(rows(longer)[last] == rows(prefix)[last]);
            assert(rows(text)[last] == rows(longer)[last]);
        } else {
            assert(rows(longer).last() == rows(prefix).last().push(longer.last()));
            assert(rows(prefix).last().is_prefix_of(rows(longer).last()));
        }
        assert forall|r: int| 0 <= r < last implies rows(prefix)[r] == #[trigger] rows(text)[r] by {
            assert(rows(longer)[r] == rows(prefix)[r]);
        }
        assert forall|r: int| 0 <= r < rows(prefix).len() implies row_start(prefix, r)
            == #[trigger] row_start(text, r) by {
            lemma_row_start_agrees(prefix, text, r);
        }
    }
}

/// A row lies whole before the rows that follow it.
pub proof fn lemma_row_starts_ordered(text: Seq<u16>, first: int, second: int)
    requires
        0 <= first < second < rows(text).len(),
    ensures
        0 <= row_start(text, first),
        row_start(text, first) + rows(text)[first].len() < row_start(text, second),
    decreases second,
{
    if first > 0 {
        lemma_row_starts_ordered(text, first - 1, first);
    }
    if first < second - 1 {
        lemma_row_starts_ordered(text, first, second - 1);
    }
}

/// The offset of a point lies in the text.
pub proof fn lemma_offset_in_text(text: Seq<u16>, point: Point)
    ensures
        0 <= offset_of(text, point) <= text.len(),
{
    lemma_rows_len(text);
    let row = point.row as int;
    let last = rows(text).len() - 1;
    if row < last {
        lemma_row_starts_ordered(text, row, last);
    } else if row == last && last > 0 {
        lemma_row_starts_ordered(text, 0, last);
    }
}

/// Every offset has a position, and its position has that offset.
pub proof fn lemma_point_at(text: Seq<u16>, offset: int)
    requires
        fits(text),
        0 <= offset <= text.len(),
    ensures
        is_position(text, point_at(text, offset)),
        offset_of(text, point_at(text, offset)) == offset,
{
    lemma_rows_of_prefix(text, offset);
    lemma_rows_len(text.take(offset));
    let last = rows(text.take(offset)).len() - 1;
    assert(row_start(text.take(offset), last) == row_start(text, last));
    if last > 0 {
        lemma_row_starts_ordered(text.take(offset), 0, last);
    }
}

/// Positions stand in the order of their offsets.
pub proof fn lemma_offsets_ordered(text: Seq<u16>, a: Point, b: Point)
    requires
        is_position(text, a),
        is_position(text, b),
    ensures
        a.before(b) <==> offset_of(text, a) < offset_of(text, b),
        a == b <==> offset_of(text, a) == offset_of(text, b),
{
    if a.row < b.row {
        lemma_row_starts_ordered(text, a.row as int, b.row as int);
    } else if b.row < a.row {
        lemma_row_starts_ordered(text, b.row as int, a.row as int);
    }
}

/// The offset of a position leads back to it.
pub proof fn lemma_point_of_offset(text: Seq<u16>, point: Point)
    requires
        fits(text),
        is_position(text, point),
    ensures
        point_at(text, offset_of(text, point)) == point,
{
    lemma_offset_in_text(text, point);
    lemma_point_at(text, offset_of(text, point));
    lemma_offsets_ordered(text, point, point_at(text, offset_of(text, point)));
}

/// A row is the stretch of the text that begins at its start.
pub proof fn lemma_row_in_text(text: Seq<u16>, row: int)
    requires
        0 <= row < rows(text).len(),
    ensures
        0 <= row_start(text, row) <= row_start(text, row) + rows(text)[row].len() <= text.len(),
        rows(text)[row] == text.subrange(
            row_start(text, row),
            row_start(text, row) + rows(text)[row].len(),
        ),
        !rows(text)[row].contains(NEWLINE),
        row < rows(text).len() - 1 ==> row_start(text, row) + rows(text)[row].len() < text.len()
            && text[row_start(text, row) + rows(text)[row].len()] == NEWLINE,
    decreases text.len(),
{
    if text.len() > 0 {
        let shorter = text.drop_last();
        assert(shorter =~= text.take(text.len() - 1));
        lemma_rows_of_prefix(text, text.len() - 1);
        lemma_rows_len(shorter);
        lemma_rows_len(text);
        if row < rows(shorter).len() {
            lemma_row_in_text(shorter, row);
            lemma_row_start_agrees(shorter, text, row);
        }
        let last = rows(text).len() - 1;
        if row == last {
            if last > 0 {
                lemma_row_starts_ordered(text, 0, last);
            }
            if text.last() == NEWLINE {
                assert(rows(text)[row] =~= text.subrange(text.len() as int, text.len() as int));
            } else {
                let before = rows(shorter)[row];
                assert(rows(text)[row] == before.push(text.last()));
                assert(rows(text)[row] =~= text.subrange(
                    row_start(text, row),
                    row_start(text, row) + rows(text)[row].len(),
                ));
                assert forall|i: int| 0 <= i < rows(text)[row].len() implies #[trigger] rows(text)[row][i]
                    != NEWLINE by {
                    if i < before.len() {
                        assert(before.contains(before[i]));
                    }
                }
            }
        } else {
            assert(rows(text)[row] == rows(shorter)[row]);
            assert(rows(text)[row] =~= text.subrange(
                row_start(text, row),
                row_start(text, row) + rows(text)[row].len(),
            ));
        }
    } else {
        assert(rows(text)[row] =~= text.subrange(0, 0));
    }
}

/// What stands from the start of a row on has that row and the ones after it.
pub proof fn lemma_rows_of_suffix(text: Seq<u16>, row: int)
    requires
        0 <= row < rows(text).len(),
    ensures
        rows(text.skip(row_start(text, row))) == rows(text).skip(row),
    decreases text.len(),
{
    lemma_row_in_text(text, row);
    let start = row_start(text, row);
    let suffix = text.skip(start);
    if text.len() == 0 {
        assert(suffix =~= text);
        assert(rows(text).skip(0) =~= rows(text));
    } else {
        let shorter = text.drop_last();
        assert(shorter =~= text.take(text.len() - 1));
        lemma_rows_of_prefix(text, text.len() - 1);
        lemma_rows_len(shorter);
        if row < rows(shorter).len() {
            lemma_rows_of_suffix(shorter, row);
            lemma_row_in_text(shorter, row);
            lemma_row_start_agrees(shorter, text, row);
            assert(suffix.drop_last() =~= shorter.skip(start));
            let before = rows(shorter).skip(row);
            if text.last() == NEWLINE {
                assert(rows(suffix) =~= before.push(Seq::<u16>::empty()));
            } else {
                assert(rows(suffix) =~= before.update(
                    before.len() - 1,
                    before.last().push(text.last()),
                ));
            }
            assert(rows(suffix) =~= rows(text).skip(row));
        } else {
            lemma_rows_len(text);
            assert(start == text.len());
            assert(suffix =~= Seq::<u16>::empty());
            assert(rows(suffix) =~= rows(text).skip(row));
        }
    }
}

/// The rows, with a newline between each two of them, are the text.
pub proof fn law_rows_joined(text: Seq<u16>)
    ensures
        joined(rows(text)) == text,
    decreases text.len(),
{
    lemma_rows_len(text);
    if text.len() > 0 {
        let shorter = text.drop_last();
        let before = rows(shorter);
        law_rows_joined(shorter);
        lemma_rows_len(shorter);
        if text.last() == NEWLINE {
            assert(rows(text).drop_last() =~= before);
            assert(joined(rows(text)) =~= text);
        } else {
            assert(rows(text).drop_last() =~= before.drop_last());
            assert(rows(text).last() == before.last().push(text.last()));
            assert(joined(rows(text)) =~= joined(before).push(text.last()));
            assert(shorter.push(text.last()) =~= text);
        }
    } else {
        assert(joined(rows(text)) =~= text);
    }
}

/// Rows with a newline between each two of them.
pub open spec fn joined(rows: Seq<Seq<u16>>) -> Seq<u16>
    decreases rows.len(),
{
    if rows.len() == 0 {
        Seq::<u16>::empty()
    } else if rows.len() == 1 {
        rows[0]
    } else {
        joined(rows.drop_last()).push(NEWLINE) + rows.last()
    }
}

/// The length of a row, or nothing where the text has no such row.
pub fn row_len(text: &Vec<u16>, row: u32) -> (len: Option<u32>)
    requires
        fits(text@),
    ensures
        len == (if row < rows(text@).len() {
            Some(rows(text@)[row as int].len() as u32)
        } else {
            None
        }),
{
    let mut current: u32 = 0;
    let mut column: u32 = 0;
    let mut i: usize = 0;
    while i < text.len()
        invariant
            i <= text.len(),
            fits(text@),
            current <= row,
            current == rows(text@.take(i as int)).len() - 1,
            column == rows(text@.take(i as int)).last().len(),
            column <= i,
            current <= i,
        decreases text.len() - i,
    {
        proof {
            lemma_rows_of_prefix(text@, i as int);
            lemma_rows_of_prefix(text@, i + 1);
            assert(text@.take(i + 1).drop_last() =~= text@.take(i as int));
        }
        if text[i] == NEWLINE {
            if current == row {
                assert(rows(text@.take(i + 1))[row as int] == rows(text@.take(i as int)).last());
                return Some(column);
            }
            current += 1;
            column = 0;
        } else {
            column += 1;
        }
        i += 1;
    }
    assert(text@.take(i as int) =~= text@);
    if current == row {
        Some(column)
    } else {
        None
    }
}

/// Whether a row is the first of the longest rows.
pub open spec fn is_longest_row(text: Seq<u16>, row: int) -> bool {
    &&& 0 <= row < rows(text).len()
    &&& forall|r: int|
        0 <= r < rows(text).len() ==> #[trigger] rows(text)[r].len() <= rows(text)[row].len()
    &&& forall|r: int| 0 <= r < row ==> #[trigger] rows(text)[r].len() < rows(text)[row].len()
}

/// The first of the longest rows.
pub fn longest_row(text: &Vec<u16>) -> (row: u32)
    requires
        fits(text@),
    ensures
        is_longest_row(text@, row as int),
{
    let mut longest: u32 = 0;
    let mut longest_len: u32 = 0;
    let mut current: u32 = 0;
    let mut column: u32 = 0;
    let mut i: usize = 0;
    while i < text.len()
        invariant
            i <= text.len(),
            fits(text@),
            current == rows(text@.take(i as int)).len() - 1,
            column == rows(text@.take(i as int)).last().len(),
            column <= i,
            current <= i,
            longest_len == rows(text@.take(i as int))[longest as int].len(),
            is_longest_row(text@.take(i as int), longest as int),
        decreases text.len() - i,
    {
        let ghost before = rows(text@.take(i as int));
        let ghost after = rows(text@.take(i + 1));
        proof {
            assert(text@.take(i + 1).drop_last() =~= text@.take(i as int));
        }
        if text[i] == NEWLINE {
            current += 1;
            column = 0;
            assert(after == before.push(Seq::<u16>::empty()));
        } else {
            column += 1;
            assert(after == before.update(before.len() - 1, before.last().push(text@[i as int])));
            if column > longest_len {
                longest = current;
                longest_len = column;
            }
        }
        i += 1;
    }
    assert(text@.take(i as int) =~= text@);
    longest
}

/// The code units of a row, or nothing where the text has no such row.
pub fn row_units(text: &Vec<u16>, row: u32) -> (units: Option<Vec<u16>>)
    requires
        fits(text@),
    ensures
        match units {
            Some(units) => row < rows(text@).len() && units@ == rows(text@)[row as int],
            None => row >= rows(text@).len(),
        },
{
    match row_len(text, row) {
        Some(len) => {
            let start = offset_for_point(text, Point { row, column: 0 });
            proof {
                lemma_row_in_text(text@, row as int);
            }
            let mut units: Vec<u16> = Vec::new();
            let mut i: usize = 0;
            while i < len as usize
                invariant
                    i <= len,
                    start + len <= text.len(),
                    units@ == text@.subrange(start as int, start + i),
                decreases len - i,
            {
                units.push(text[start + i]);
                i += 1;
                assert(units@ =~= text@.subrange(start as int, start + i));
            }
            Some(units)
        },
        None => None,
    }
}

/// A range of offsets with both ends brought into the text, and the end not
/// before the start.
pub open spec fn range_start(text: Seq<u16>, range: Range<usize>) -> int {
    if range.start <= text.len() {
        range.start as int
    } else {
        text.len() as int
    }
}

pub open spec fn range_end(text: Seq<u16>, range: Range<usize>) -> int {
    let start = range_start(text, range);
    if range.end <= start {
        start
    } else if range.end <= text.len() {
        range.end as int
    } else {
        text.len() as int
    }
}

/// The text with one range of it replaced.
pub open spec fn splice(text: Seq<u16>, range: Range<usize>, new: Seq<u16>) -> Seq<u16> {
    text.take(range_start(text, range)) + new + text.skip(range_end(text, range))
}

/// Where an offset moves when a range is replaced. An offset up to the start of
/// the range stays; one in the range or at its end goes behind the new text, and
/// one further on keeps its distance to the end of the text.
pub open spec fn moved_offset(
    text: Seq<u16>,
    offset: int,
    range: Range<usize>,
    new: Seq<u16>,
) -> int {
    let start = range_start(text, range);
    let end = range_end(text, range);
    if offset <= start {
        offset
    } else if offset <= end {
        start + new.len()
    } else {
        offset - (end - start) + new.len()
    }
}

/// Deleting what was inserted gives the text back.
pub proof fn law_delete_undoes_insert(text: Seq<u16>, offset: usize, new: Seq<u16>)
    requires
        offset <= text.len(),
        offset + new.len() <= usize::MAX,
    ensures
        splice(
            splice(text, Range { start: offset, end: offset }, new),
            Range { start: offset, end: (offset + new.len()) as usize },
            Seq::empty(),
        ) == text,
{
    let inserted = splice(text, Range { start: offset, end: offset }, new);
    assert(inserted.take(offset as int) =~= text.take(offset as int));
    assert(inserted.skip(offset + new.len()) =~= text.skip(offset as int));
    assert(text.take(offset as int) + Seq::<u16>::empty() + text.skip(offset as int) =~= text);
}

/// When a range is replaced, offsets stay in the text and in their order.
pub proof fn law_moved_offsets(
    text: Seq<u16>,
    a: int,
    b: int,
    range: Range<usize>,
    new: Seq<u16>,
)
    requires
        0 <= a <= b <= text.len(),
    ensures
        0 <= moved_offset(text, a, range, new) <= moved_offset(text, b, range, new) <= splice(
            text,
            range,
            new,
        ).len(),
{
}

/// What comes before the replaced range and what comes after it stay as they are.
pub proof fn law_splice_keeps_the_rest(text: Seq<u16>, range: Range<usize>, new: Seq<u16>)
    ensures
        splice(text, range, new).take(range_start(text, range)) == text.take(
            range_start(text, range),
        ),
        splice(text, range, new).skip(range_start(text, range) + new.len()) == text.skip(
            range_end(text, range),
        ),
{
    assert(splice(text, range, new).take(range_start(text, range)) =~= text.take(
        range_start(text, range),
    ));
    assert(splice(text, range, new).skip(range_start(text, range) + new.len()) =~= text.skip(
        range_end(text, range),
    ));
}

/// A range in the text is replaced where it is, and one past the end of the text is taken
/// for the end.
pub proof fn law_splice(text: Seq<u16>, range: Range<usize>, new: Seq<u16>)
    requires
        range.start <= range.end,
    ensures
        range.end <= text.len() ==> splice(text, range, new) == text.take(range.start as int) + new
            + text.skip(range.end as int),
        range.start <= text.len() < range.end ==> splice(text, range, new) == text.take(
            range.start as int,
        ) + new,
        text.len() < range.start ==> splice(text, range, new) == text + new,
{
    if text.len() < range.end {
        assert(text.skip(text.len() as int) =~= Seq::<u16>::empty());
        assert(text.take(text.len() as int) =~= text);
        assert(text.take(range_start(text, range)) + new + Seq::<u16>::empty() =~= text.take(
            range_start(text, range),
        ) + new);
    }
}

/// A row ends where the text does or where a newline stands, and nowhere else.
pub proof fn law_row_ends(text: Seq<u16>, point: Point)
    requires
        is_position(text, point),
    ensures
        point.column == rows(text)[point.row as int].len() <==> (offset_of(text, point)
            == text.len() || text[offset_of(text, point)] == NEWLINE),
{
    let row = point.row as int;
    let len = rows(text)[row].len();
    let offset = offset_of(text, point);
    lemma_row_in_text(text, row);
    lemma_rows_len(text);
    if point.column < len {
        assert(rows(text)[row][point.column as int] == text[offset]);
        assert(rows(text)[row].contains(rows(text)[row][point.column as int]));
    }
}

/// Replaces one range of the text.
pub fn splice_text(text: &Vec<u16>, range: &Range<usize>, new: &Vec<u16>) -> (result: Vec<u16>)
    ensures
        result@ == splice(text@, *range, new@),
{
    let start: usize = if range.start <= text.len() {
        range.start
    } else {
        text.len()
    };
    let end: usize = if range.end <= start {
        start
    } else if range.end <= text.len() {
        range.end
    } else {
        text.len()
    };
    let mut result: Vec<u16> = Vec::new();
    let mut i: usize = 0;
    while i < start
        invariant
            i <= start <= text@.len(),
            result@ == text@.take(i as int),
        decreases start - i,
    {
        result.push(text[i]);
        i += 1;
        assert(result@ =~= text@.take(i as int));
    }
    let mut j: usize = 0;
    while j < new.len()
        invariant
            start <= text@.len(),
            j <= new@.len(),
            result@ == text@.take(start as int) + new@.take(j as int),
        decreases new.len() - j,
    {
        result.push(new[j]);
        j += 1;
        assert(result@ =~= text@.take(start as int) + new@.take(j as int));
    }
    assert(new@.take(j as int) =~= new@);
    let mut k: usize = end;
    assert(result@ =~= text@.take(start as int) + new@ + text@.subrange(end as int, end as int));
    while k < text.len()
        invariant
            start <= end <= k <= text@.len(),
            result@ == text@.take(start as int) + new@ + text@.subrange(end as int, k as int),
        decreases text.len() - k,
    {
        result.push(text[k]);
        k += 1;
        assert(result@ =~= text@.take(start as int) + new@ + text@.subrange(end as int, k as int));
    }
    assert(text@.subrange(end as int, k as int) =~= text@.skip(end as int));
    result
}

/// The position at the end of the text.
pub fn last_position(text: &Vec<u16>) -> (point: Point)
    requires
        fits(text@),
    ensures
        point == end_point(text@),
{
    point_for_offset(text, text.len())
}

/// The position at an offset; an offset past the end of the text is taken for
/// the end.
pub fn point_for_offset(text: &Vec<u16>, offset: usize) -> (point: Point)
    requires
        fits(text@),
    ensures
        point == point_at(text@, if offset <= text@.len() { offset as int } else { text@.len() as int }),
        offset >= text@.len() ==> point == end_point(text@),
{
    let mut row: u32 = 0;
    let mut column: u32 = 0;
    let mut i: usize = 0;
    assert(text@.take(text@.len() as int) =~= text@);
    while i < text.len() && i < offset
        invariant
            i <= text.len(),
            i <= offset,
            fits(text@),
            row == rows(text@.take(i as int)).len() - 1,
            column == rows(text@.take(i as int)).last().len(),
            column <= i,
            row <= i,
        decreases text.len() - i,
    {
        proof {
            lemma_rows_len(text@.take(i as int));
            assert(text@.take(i + 1).drop_last() =~= text@.take(i as int));
        }
        if text[i] == NEWLINE {
            row += 1;
            column = 0;
        } else {
            column += 1;
        }
        i += 1;
    }
    Point { row, column }
}

/// The offset that a point stands for.
pub fn offset_for_point(text: &Vec<u16>, point: Point) -> (offset: usize)
    requires
        fits(text@),
    ensures
        offset == offset_of(text@, point),
        offset <= text@.len(),
{
    let mut row: u32 = 0;
    let mut column: u32 = 0;
    let mut i: usize = 0;
    while i < text.len()
        invariant
            i <= text.len(),
            fits(text@),
            row <= point.row,
            row == point.row ==> column <= point.column,
            row == rows(text@.take(i as int)).len() - 1,
            column == rows(text@.take(i as int)).last().len(),
            i == row_start(text@.take(i as int), row as int) + column,
            column <= i,
            row <= i,
        decreases text.len() - i,
    {
        proof {
            lemma_rows_of_prefix(text@, i as int);
            lemma_rows_of_prefix(text@, i + 1);
            lemma_rows_len(text@.take(i + 1));
            assert(text@.take(i + 1).drop_last() =~= text@.take(i as int));
            assert(row_start(text@.take(i as int), row as int) == row_start(text@, row as int));
        }
        if row == point.row && column == point.column {
            return i;
        }
        if text[i] == NEWLINE {
            if row == point.row {
                assert(rows(text@.take(i + 1))[row as int] == rows(text@.take(i as int)).last());
                return i;
            }
            row += 1;
            column = 0;
        } else {
            column += 1;
        }
        i += 1;
    }
    assert(text@.take(i as int) =~= text@);
    i
}

/// No row is longer than the longest, and none before it is as long; so there is one such
/// row.
pub proof fn law_longest_row(text: Seq<u16>, row: int, other: int)
    requires
        is_longest_row(text, row),
        0 <= other < rows(text).len(),
    ensures
        rows(text)[other].len() <= rows(text)[row].len(),
        other < row ==> rows(text)[other].len() < rows(text)[row].len(),
        is_longest_row(text, other) ==> other == row,
{
    if is_longest_row(text, other) {
        assert(rows(text)[row].len() <= rows(text)[other].len());
        assert(rows(text)[other].len() <= rows(text)[row].len());
    }
}

} // verus!
