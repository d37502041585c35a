//! An open text: its code units, and the selections in it.

use std::ops::Range;

use vstd::prelude::*;

use crate::error::{Error, MemoError};
use crate::notify_cell::NotifyCell;
use crate::point::{copy_ranges, Point};
use crate::text;
use crate::utf16;

verus! {

/// Which text a buffer holds.
pub type BufferId = u64;

/// Which of a buffer's local selection sets is meant.
pub type SelectionSetId = u64;

/// Who edits: the number of a replica.
pub type ReplicaId = u128;

/// What a buffer tells its peers.
pub enum Operation {
    /// The ranges, in the order in which they were given, were each replaced.
    Edit { old_ranges: Vec<Range<usize>>, text: Vec<u16> },
    /// A selection set was put in place or replaced.
    SetSelections { set_id: SelectionSetId, ranges: Vec<Range<Point>> },
    /// A selection set is gone.
    RemoveSelections { set_id: SelectionSetId },
}

/// An operation as a mathematical value.
pub enum OperationModel {
    Edit { old_ranges: Seq<Range<usize>>, text: Seq<u16> },
    SetSelections { set_id: SelectionSetId, ranges: Seq<Range<Point>> },
    RemoveSelections { set_id: SelectionSetId },
}

impl View for Operation {
    type V = OperationModel;

    open spec fn view(&self) -> OperationModel {
        match *self {
            Operation::Edit { old_ranges, text } => OperationModel::Edit {
                old_ranges: old_ranges@,
                text: text@,
            },
            Operation::SetSelections { set_id, ranges } => OperationModel::SetSelections {
                set_id,
                ranges: ranges@,
            },
            Operation::RemoveSelections { set_id } => OperationModel::RemoveSelections { set_id },
        }
    }
}

/// A selection set of this replica.
pub struct SelectionSet {
    pub id: SelectionSetId,
    pub ranges: Vec<Range<Point>>,
}

/// The selection sets of another replica.
pub struct RemoteSelections {
    pub replica_id: ReplicaId,
    pub sets: Vec<Vec<Range<Point>>>,
}

/// All selections in a buffer.
pub struct SelectionRanges {
    pub local: Vec<SelectionSet>,
    pub remote: Vec<RemoteSelections>,
}

/// The selection sets of another replica as a mathematical value.
pub struct RemoteModel {
    pub replica_id: ReplicaId,
    pub sets: Seq<Seq<Range<Point>>>,
}

impl View for RemoteSelections {
    type V = RemoteModel;

    open spec fn view(&self) -> RemoteModel {
        RemoteModel {
            replica_id: self.replica_id,
            sets: self.sets@.map_values(|set: Vec<Range<Point>>| set@),
        }
    }
}

/// All selections in a buffer as a mathematical value, with the sets of this
/// replica in the order in which they are listed.
#[verifier::ext_equal]
pub struct SelectionsModel {
    pub local: Seq<(SelectionSetId, Seq<Range<Point>>)>,
    pub remote: Seq<RemoteModel>,
}

impl View for SelectionRanges {
    type V = SelectionsModel;

    open spec fn view(&self) -> SelectionsModel {
        SelectionsModel {
            local: self.local@.map_values(|set: SelectionSet| (set.id, set.ranges@)),
            remote: remote_models(self.remote@),
        }
    }
}

/// The ranges of each of a list of selection sets, by the number of the set.
pub open spec fn set_map(sets: Seq<SelectionSet>) -> Map<SelectionSetId, Seq<Range<Point>>>
    decreases sets.len(),
{
    if sets.len() == 0 {
        Map::empty()
    } else {
        set_map(sets.drop_last()).insert(sets.last().id, sets.last().ranges@)
    }
}

/// The selections of each of a list of replicas.
pub open spec fn remote_models(remote: Seq<RemoteSelections>) -> Seq<RemoteModel> {
    remote.map_values(|r: RemoteSelections| r@)
}

/// Whether no two of the sets have one number.
pub open spec fn distinct_ids(sets: Seq<SelectionSet>) -> bool {
    forall|i: int, j: int| 0 <= i < j < sets.len() ==> sets[i].id != sets[j].id
}

/// Where a selection range lies once its ends are taken for positions in the
/// text.
pub open spec fn clip_range(text: Seq<u16>, range: Range<Point>) -> Range<Point> {
    Range { start: text::clipped(text, range.start), end: text::clipped(text, range.end) }
}

pub open spec fn clip_ranges(text: Seq<u16>, ranges: Seq<Range<Point>>) -> Seq<Range<Point>> {
    ranges.map_values(|range: Range<Point>| clip_range(text, range))
}

/// Whether both ends of each range are positions in the text.
pub open spec fn in_text(text: Seq<u16>, ranges: Seq<Range<Point>>) -> bool {
    forall|i: int|
        0 <= i < ranges.len() ==> text::is_position(text, (#[trigger] ranges[i]).start)
            && text::is_position(text, ranges[i].end)
}

/// Where a position moves when a range of the text is replaced.
pub open spec fn moved_point(
    text: Seq<u16>,
    point: Point,
    range: Range<usize>,
    new: Seq<u16>,
) -> Point {
    text::point_at(
        text::splice(text, range, new),
        text::moved_offset(text, text::offset_of(text, point), range, new),
    )
}

pub open spec fn moved_ranges(
    text: Seq<u16>,
    ranges: Seq<Range<Point>>,
    range: Range<usize>,
    new: Seq<u16>,
) -> Seq<Range<Point>> {
    ranges.map_values(
        |r: Range<Point>|
            Range {
                start: moved_point(text, r.start, range, new),
                end: moved_point(text, r.end, range, new),
            },
    )
}

pub open spec fn moved_remote(
    text: Seq<u16>,
    remote: RemoteModel,
    range: Range<usize>,
    new: Seq<u16>,
) -> RemoteModel {
    RemoteModel {
        sets: remote.sets.map_values(
            |set: Seq<Range<Point>>| moved_ranges(text, set, range, new),
        ),
        ..remote
    }
}

/// The offsets of the ends of each range.
pub open spec fn offset_ranges(text: Seq<u16>, ranges: Seq<Range<Point>>) -> Seq<Range<usize>> {
    ranges.map_values(
        |range: Range<Point>|
            Range {
                start: text::offset_of(text, range.start) as usize,
                end: text::offset_of(text, range.end) as usize,
            },
    )
}

/// A buffer as a mathematical value.
#[verifier::ext_equal]
pub struct BufferModel {
    pub id: BufferId,
    pub text: Seq<u16>,
    /// The selection sets of this replica.
    pub local: Map<SelectionSetId, Seq<Range<Point>>>,
    /// The selections of other replicas.
    pub remote: Seq<RemoteModel>,
    /// The number that the next selection set gets.
    pub next_set_id: SelectionSetId,
    /// For each observer, whether there is an update that it has not seen.
    pub unseen: Seq<bool>,
    /// What is yet to be told to the peers, in order.
    pub outgoing: Seq<OperationModel>,
}

impl BufferModel {
    /// The buffer once a range of its text is replaced: the text changes there,
    /// and every selection moves along.
    pub open spec fn spliced(self, range: Range<usize>, new: Seq<u16>) -> BufferModel {
        BufferModel {
            text: text::splice(self.text, range, new),
            local: self.local.map_values(
                |set: Seq<Range<Point>>| moved_ranges(self.text, set, range, new),
            ),
            remote: self.remote.map_values(
                |r: RemoteModel| moved_remote(self.text, r, range, new),
            ),
            ..self
        }
    }

    /// The buffer once each of the ranges is replaced, from the last to the
    /// first, so that a range finds its offsets as they were.
    pub open spec fn edited(self, ranges: Seq<Range<usize>>, new: Seq<u16>) -> BufferModel
        decreases ranges.len(),
    {
        if ranges.len() == 0 {
            self
        } else {
            self.spliced(ranges.last(), new).edited(ranges.drop_last(), new)
        }
    }

    /// Whether the text keeps to its bound while the ranges are replaced.
    pub open spec fn edit_fits(self, ranges: Seq<Range<usize>>, new: Seq<u16>) -> bool
        decreases ranges.len(),
    {
        ranges.len() > 0 ==> {
            &&& text::fits(self.spliced(ranges.last(), new).text)
            &&& self.spliced(ranges.last(), new).edit_fits(ranges.drop_last(), new)
        }
    }

    /// The buffer once its observers have something to see.
    pub open spec fn notified(self) -> BufferModel {
        BufferModel { unseen: self.unseen.map_values(|seen: bool| true), ..self }
    }

    /// The buffer once its text is another one. Selections of this replica are taken
    /// for positions in the new text.
    pub open spec fn with_text(self, text: Seq<u16>) -> BufferModel {
        (BufferModel {
            text,
            local: self.local.map_values(|set: Seq<Range<Point>>| clip_ranges(text, set)),
            ..self
        }).notified()
    }

    /// The buffer with one more thing to tell the peers.
    pub open spec fn telling(self, operation: OperationModel) -> BufferModel {
        BufferModel { outgoing: self.outgoing.push(operation), ..self }
    }

    /// The buffer with the ranges of a selection set put in place.
    pub open spec fn with_set(self, set_id: SelectionSetId, ranges: Seq<Range<Point>>) -> BufferModel {
        BufferModel { local: self.local.insert(set_id, clip_ranges(self.text, ranges)), ..self }
    }
}

/// When a range of the text is replaced, the positions in it stay in their order.
pub proof fn law_moved_points_stay_in_order(
    text: Seq<u16>,
    a: Point,
    b: Point,
    range: Range<usize>,
    new: Seq<u16>,
)
    requires
        text::fits(text::splice(text, range, new)),
        text::is_position(text, a),
        text::is_position(text, b),
        !b.before(a),
    ensures
        text::is_position(text::splice(text, range, new), moved_point(text, a, range, new)),
        text::is_position(text::splice(text, range, new), moved_point(text, b, range, new)),
        !moved_point(text, b, range, new).before(moved_point(text, a, range, new)),
{
    let spliced = text::splice(text, range, new);
    let offset_a = text::offset_of(text, a);
    let offset_b = text::offset_of(text, b);
    text::lemma_offsets_ordered(text, a, b);
    text::lemma_offsets_ordered(text, b, a);
    text::lemma_offset_in_text(text, a);
    text::lemma_offset_in_text(text, b);
    text::law_moved_offsets(text, offset_a, offset_b, range, new);
    text::lemma_point_at(spliced, text::moved_offset(text, offset_a, range, new));
    text::lemma_point_at(spliced, text::moved_offset(text, offset_b, range, new));
    text::lemma_offsets_ordered(
        spliced,
        moved_point(text, b, range, new),
        moved_point(text, a, range, new),
    );
}

/// Whether ranges lie in a text of some length, in ascending order and without
/// overlap.
pub open spec fn ascending(ranges: Seq<Range<usize>>, len: nat) -> bool {
    &&& forall|i: int|
        0 <= i < ranges.len() ==> (#[trigger] ranges[i]).start <= ranges[i].end <= len
    &&& forall|i: int, j: int|
        0 <= i < j < ranges.len() ==> (#[trigger] ranges[i]).end <= (#[trigger] ranges[j]).start
}

/// A text with each of some ranges of it replaced: what stands before, between and
/// behind the ranges, with the new text where each of them was.
pub open spec fn with_replaced(
    text: Seq<u16>,
    ranges: Seq<Range<usize>>,
    new: Seq<u16>,
) -> Seq<u16>
    decreases ranges.len(),
{
    if ranges.len() == 0 {
        text
    } else {
        with_replaced(text.take(ranges.last().start as int), ranges.drop_last(), new) + new
            + text.skip(ranges.last().end as int)
    }
}

/// An edit of ranges leaves what stands behind all of them as it is.
proof fn lemma_edit_before(
    buffer: BufferModel,
    shorter: BufferModel,
    ranges: Seq<Range<usize>>,
    new: Seq<u16>,
    rest: Seq<u16>,
)
    requires
        ascending(ranges, shorter.text.len()),
        buffer.text == shorter.text + rest,
    ensures
        buffer.edited(ranges, new).text == shorter.edited(ranges, new).text + rest,
    decreases ranges.len(),
{
    if ranges.len() > 0 {
        let last = ranges.last();
        let fewer = ranges.drop_last();
        let after = buffer.spliced(last, new);
        let shorter_after = shorter.spliced(last, new);
        assert(ranges[ranges.len() - 1] == last);
        assert(after.text =~= shorter_after.text + rest);
        assert(ascending(fewer, shorter_after.text.len())) by {
            assert forall|i: int| 0 <= i < fewer.len() implies (#[trigger] fewer[i]).start
                <= fewer[i].end <= shorter_after.text.len() by {
                assert(ranges[i] == fewer[i]);
                assert(ranges[i].end <= ranges[ranges.len() - 1].start);
            }
            assert forall|i: int, j: int| 0 <= i < j < fewer.len() implies (
            #[trigger] fewer[i]).end <= (#[trigger] fewer[j]).start by {
                assert(ranges[i].end <= ranges[j].start);
            }
        }
        lemma_edit_before(after, shorter_after, fewer, new, rest);
    }
}

/// An edit of ranges that come in ascending order replaces each of them, and leaves
/// all other text as it is.
pub proof fn law_edit_replaces_each_range(
    buffer: BufferModel,
    ranges: Seq<Range<usize>>,
    new: Seq<u16>,
)
    requires
        ascending(ranges, buffer.text.len()),
    ensures
        buffer.edited(ranges, new).text == with_replaced(buffer.text, ranges, new),
    decreases ranges.len(),
{
    if ranges.len() > 0 {
        let last = ranges.last();
        let fewer = ranges.drop_last();
        let before = BufferModel { text: buffer.text.take(last.start as int), ..buffer };
        let after = buffer.spliced(last, new);
        assert(ranges[ranges.len() - 1] == last);
        assert(after.text =~= before.text + (new + buffer.text.skip(last.end as int)));
        assert(ascending(fewer, before.text.len())) by {
            assert forall|i: int| 0 <= i < fewer.len() implies (#[trigger] fewer[i]).start
                <= fewer[i].end <= before.text.len() by {
                assert(ranges[i] == fewer[i]);
                assert(ranges[i].end <= ranges[ranges.len() - 1].start);
            }
            assert forall|i: int, j: int| 0 <= i < j < fewer.len() implies (
            #[trigger] fewer[i]).end <= (#[trigger] fewer[j]).start by {
                assert(ranges[i].end <= ranges[j].start);
            }
        }
        lemma_edit_before(
            after,
            before,
            fewer,
            new,
            new + buffer.text.skip(last.end as int),
        );
        law_edit_replaces_each_range(before, fewer, new);
        assert(buffer.edited(ranges, new).text =~= with_replaced(buffer.text, ranges, new));
    }
}

/// What stands behind all replaced ranges stays as it is.
proof fn lemma_replaced_before(
    text: Seq<u16>,
    rest: Seq<u16>,
    ranges: Seq<Range<usize>>,
    new: Seq<u16>,
)
    requires
        ascending(ranges, text.len()),
    ensures
        with_replaced(text + rest, ranges, new) == with_replaced(text, ranges, new) + rest,
{
    if ranges.len() > 0 {
        let last = ranges.last();
        assert(ranges[ranges.len() - 1] == last);
        assert((text + rest).take(last.start as int) =~= text.take(last.start as int));
        assert((text + rest).skip(last.end as int) =~= text.skip(last.end as int) + rest);
        assert(with_replaced(text + rest, ranges, new) =~= with_replaced(text, ranges, new) + rest);
    } else {
        assert(with_replaced(text + rest, ranges, new) =~= with_replaced(text, ranges, new) + rest);
    }
}

/// Whether ranges lie in a text of some length, in ascending order and without overlap,
/// and no two start at one offset.
pub open spec fn strictly_ascending(ranges: Seq<Range<usize>>, len: nat) -> bool {
    &&& ascending(ranges, len)
    &&& forall|i: int, j: int|
        0 <= i < j < ranges.len() ==> (#[trigger] ranges[i]).start < (#[trigger] ranges[j]).start
}

/// Whether an offset lies behind the first few of some ranges and not behind the start
/// of any other.
pub open spec fn lies_behind(ranges: Seq<Range<usize>>, count: int, offset: int) -> bool {
    &&& 0 <= count <= ranges.len()
    &&& forall|i: int|
        0 <= i < count ==> (#[trigger] ranges[i]).start < offset && ranges[i].end <= offset
    &&& forall|i: int| count <= i < ranges.len() ==> offset <= (#[trigger] ranges[i]).start
}

proof fn lemma_fewer_ranges(ranges: Seq<Range<usize>>, len: nat, after: nat)
    requires
        ranges.len() > 0,
        strictly_ascending(ranges, len),
        ranges.last().start <= after,
    ensures
        strictly_ascending(ranges.drop_last(), after),
        ranges.last().start <= ranges.last().end <= len,
{
    let fewer = ranges.drop_last();
    assert(ranges[ranges.len() - 1] == ranges.last());
    assert forall|i: int| 0 <= i < fewer.len() implies (#[trigger] fewer[i]).start <= fewer[i].end
        <= after by {
        assert(ranges[i] == fewer[i]);
        assert(ranges[i].end <= ranges[ranges.len() - 1].start);
    }
    assert forall|i: int, j: int| 0 <= i < j < fewer.len() implies (#[trigger] fewer[i]).end <= (
    #[trigger] fewer[j]).start && fewer[i].start < fewer[j].start by {
        assert(ranges[i].end <= ranges[j].start);
        assert(ranges[i].start < ranges[j].start);
    }
}

/// How long what stands before an offset is once ranges before it are replaced, told
/// after the last range is replaced.
proof fn lemma_replaced_len(
    text: Seq<u16>,
    ranges: Seq<Range<usize>>,
    new: Seq<u16>,
    count: int,
    offset: int,
)
    requires
        ranges.len() > 0,
        strictly_ascending(ranges, text.len()),
        lies_behind(ranges, count, offset),
        0 <= offset <= text.len(),
    ensures
        ({
            let fewer = ranges.drop_last();
            let after = text::splice(text, ranges.last(), new);
            let moved = text::moved_offset(text, offset, ranges.last(), new);
            let left = if count < ranges.len() { count } else { count - 1 };
            &&& 0 <= moved <= after.len()
            &&& strictly_ascending(fewer, after.len())
            &&& lies_behind(fewer, left, moved)
            &&& with_replaced(after.take(moved), fewer.take(left), new) == with_replaced(
                text.take(offset),
                ranges.take(count),
                new,
            )
        }),
{
    let last = ranges.last();
    let fewer = ranges.drop_last();
    let after = text::splice(text, last, new);
    let moved = text::moved_offset(text, offset, last, new);
    assert(ranges[ranges.len() - 1] == last);
    lemma_fewer_ranges(ranges, text.len(), text.take(last.start as int).len());
    lemma_fewer_ranges(ranges, text.len(), after.len());
    if count < ranges.len() {
        assert(offset <= last.start);
        assert(after.take(moved) =~= text.take(offset));
        assert(fewer.take(count) =~= ranges.take(count));
        assert forall|i: int| 0 <= i < count implies (#[trigger] fewer[i]).start < moved
            && fewer[i].end <= moved by {
            assert(ranges[i] == fewer[i]);
        }
        assert forall|i: int| count <= i < fewer.len() implies moved <= (
        #[trigger] fewer[i]).start by {
            assert(ranges[i] == fewer[i]);
        }
    } else {
        let before = text.take(last.start as int);
        let rest = new + text.subrange(last.end as int, offset);
        assert(last.start < offset && last.end <= offset);
        assert(after.take(moved) =~= before + rest);
        assert(fewer.take(count - 1) =~= fewer);
        assert(ranges.take(count) =~= ranges);
        lemma_replaced_before(before, rest, fewer, new);
        assert(text.take(offset).take(last.start as int) =~= before);
        assert(text.take(offset).skip(last.end as int) =~= text.subrange(last.end as int, offset));
        assert(with_replaced(after.take(moved), fewer, new) =~= with_replaced(
            text.take(offset),
            ranges,
            new,
        ));
        assert forall|i: int| 0 <= i < fewer.len() implies (#[trigger] fewer[i]).start < moved
            && fewer[i].end <= moved by {
            assert(ranges[i] == fewer[i]);
            assert(ranges[i].end <= ranges[ranges.len() - 1].start);
            assert(ranges[i].start < ranges[ranges.len() - 1].start);
        }
    }
}

/// One end of a range.
pub open spec fn one_end(range: Range<Point>, is_start: bool) -> Point {
    if is_start {
        range.start
    } else {
        range.end
    }
}

/// When ranges of the text are replaced, the ends of a selection move with the text: one
/// that lies behind some of the ranges, and in none of the others, comes to lie behind
/// what became of all that stood before it.
pub proof fn law_edit_moves_selections(
    buffer: BufferModel,
    ranges: Seq<Range<usize>>,
    new: Seq<u16>,
    set_id: SelectionSetId,
    index: int,
    is_start: bool,
    count: int,
)
    requires
        text::fits(buffer.text),
        buffer.edit_fits(ranges, new),
        strictly_ascending(ranges, buffer.text.len()),
        buffer.local.contains_key(set_id),
        in_text(buffer.text, buffer.local[set_id]),
        0 <= index < buffer.local[set_id].len(),
        lies_behind(
            ranges,
            count,
            text::offset_of(buffer.text, one_end(buffer.local[set_id][index], is_start)),
        ),
    ensures
        buffer.edited(ranges, new).local.contains_key(set_id),
        buffer.edited(ranges, new).local[set_id].len() == buffer.local[set_id].len(),
        ({
            let after = buffer.edited(ranges, new);
            let offset = text::offset_of(
                buffer.text,
                one_end(buffer.local[set_id][index], is_start),
            );
            let moved = one_end(after.local[set_id][index], is_start);
            &&& text::is_position(after.text, moved)
            &&& text::offset_of(after.text, moved) == with_replaced(
                buffer.text.take(offset),
                ranges.take(count),
                new,
            ).len()
        }),
    decreases ranges.len(),
{
    let point = one_end(buffer.local[set_id][index], is_start);
    let offset = text::offset_of(buffer.text, point);
    text::lemma_offset_in_text(buffer.text, point);
    assert(text::is_position(buffer.text, buffer.local[set_id][index].start));
    if ranges.len() == 0 {
        assert(ranges.take(count) =~= Seq::empty());
    } else {
        let last = ranges.last();
        let after = buffer.spliced(last, new);
        let set = after.local[set_id];
        let moved = text::moved_offset(buffer.text, offset, last, new);
        let left = if count < ranges.len() { count } else { count - 1 };
        lemma_replaced_len(buffer.text, ranges, new, count, offset);
        assert(set == moved_ranges(buffer.text, buffer.local[set_id], last, new));
        assert forall|i: int| 0 <= i < set.len() implies text::is_position(
            after.text,
            (#[trigger] set[i]).start,
        ) && text::is_position(after.text, set[i].end) by {
            lemma_moved_point(buffer.text, buffer.local[set_id][i].start, last, new);
            lemma_moved_point(buffer.text, buffer.local[set_id][i].end, last, new);
        }
        text::lemma_point_at(after.text, moved);
        law_edit_moves_selections(
            after,
            ranges.drop_last(),
            new,
            set_id,
            index,
            is_start,
            left,
        );
    }
}

/// Selections of others move as those of this replica do: a set that is the same stays
/// the same. No replica comes or goes, and no set of one.
pub proof fn law_edit_moves_all_alike(
    buffer: BufferModel,
    ranges: Seq<Range<usize>>,
    new: Seq<u16>,
    set_id: SelectionSetId,
    replica: int,
    set: int,
)
    requires
        buffer.local.contains_key(set_id),
        0 <= replica < buffer.remote.len(),
        0 <= set < buffer.remote[replica].sets.len(),
        buffer.remote[replica].sets[set] == buffer.local[set_id],
    ensures
        buffer.edited(ranges, new).remote.len() == buffer.remote.len(),
        buffer.edited(ranges, new).remote[replica].replica_id == buffer.remote[replica].replica_id,
        buffer.edited(ranges, new).remote[replica].sets.len() == buffer.remote[replica].sets.len(),
        buffer.edited(ranges, new).remote[replica].sets[set] == buffer.edited(
            ranges,
            new,
        ).local[set_id],
    decreases ranges.len(),
{
    if ranges.len() > 0 {
        let after = buffer.spliced(ranges.last(), new);
        assert(after.remote[replica].sets[set] == after.local[set_id]);
        law_edit_moves_all_alike(after, ranges.drop_last(), new, set_id, replica, set);
    }
}

/// What becomes of the text up to the end of one of the replaced ranges is how the whole
/// begins.
pub proof fn lemma_replaced_prefix(
    text: Seq<u16>,
    ranges: Seq<Range<usize>>,
    new: Seq<u16>,
    index: int,
)
    requires
        ascending(ranges, text.len()),
        0 <= index < ranges.len(),
    ensures
        with_replaced(text.take(ranges[index].end as int), ranges.take(index + 1), new).is_prefix_of(
            with_replaced(text, ranges, new),
        ),
    decreases ranges.len(),
{
    let last = ranges.last();
    let fewer = ranges.drop_last();
    let end = ranges[index].end as int;
    assert(ranges[ranges.len() - 1] == last);
    if index == ranges.len() - 1 {
        assert(ranges.take(index + 1) =~= ranges);
        assert(text.take(end).take(last.start as int) =~= text.take(last.start as int));
        assert(text.take(end).skip(end) =~= Seq::<u16>::empty());
    } else {
        let shorter = text.take(last.start as int);
        assert(ranges[index].end <= ranges[ranges.len() - 1].start);
        assert(ascending(fewer, shorter.len())) by {
            assert forall|i: int| 0 <= i < fewer.len() implies (#[trigger] fewer[i]).start
                <= fewer[i].end <= shorter.len() by {
                assert(ranges[i].end <= ranges[ranges.len() - 1].start);
            }
            assert forall|i: int, j: int| 0 <= i < j < fewer.len() implies (
            #[trigger] fewer[i]).end <= (#[trigger] fewer[j]).start by {
                assert(ranges[i].end <= ranges[j].start);
            }
        }
        lemma_replaced_prefix(shorter, fewer, new, index);
        assert(shorter.take(end) =~= text.take(end));
        assert(fewer.take(index + 1) =~= ranges.take(index + 1));
    }
}

/// An edit keeps to the bound of the text wherever the text and all that is inserted
/// do together.
pub proof fn law_short_edit_fits(buffer: BufferModel, ranges: Seq<Range<usize>>, new: Seq<u16>)
    requires
        buffer.text.len() + ranges.len() * new.len() < u32::MAX,
    ensures
        buffer.edit_fits(ranges, new),
    decreases ranges.len(),
{
    if ranges.len() > 0 {
        let after = buffer.spliced(ranges.last(), new);
        let count = ranges.len();
        let size = new.len();
        assert(count * size == (count - 1) * size + size) by (nonlinear_arith);
        assert((count - 1) * size >= 0) by (nonlinear_arith)
            requires
                count >= 1,
                size >= 0,
        ;
        assert(after.text.len() <= buffer.text.len() + size);
        law_short_edit_fits(after, ranges.drop_last(), new);
    }
}

/// An edit changes the text and moves selections, and nothing else: no selection set
/// comes or goes, and none gains or loses a range.
pub proof fn law_edit_keeps_the_rest(buffer: BufferModel, ranges: Seq<Range<usize>>, new: Seq<u16>)
    ensures
        buffer.edited(ranges, new).id == buffer.id,
        buffer.edited(ranges, new).next_set_id == buffer.next_set_id,
        buffer.edited(ranges, new).unseen == buffer.unseen,
        buffer.edited(ranges, new).outgoing == buffer.outgoing,
        buffer.edited(ranges, new).local.dom() == buffer.local.dom(),
        forall|set_id: SelectionSetId| #[trigger]
            buffer.local.contains_key(set_id) ==> buffer.edited(ranges, new).local[set_id].len()
                == buffer.local[set_id].len(),
    decreases ranges.len(),
{
    if ranges.len() > 0 {
        let after = buffer.spliced(ranges.last(), new);
        law_edit_keeps_the_rest(after, ranges.drop_last(), new);
        assert(after.local.dom() =~= buffer.local.dom());
        assert forall|set_id: SelectionSetId| #[trigger] buffer.local.contains_key(set_id) implies
            buffer.edited(ranges, new).local[set_id].len() == buffer.local[set_id].len() by {
            assert(after.local.contains_key(set_id));
        }
    }
}

/// An edit that keeps to the bound of the text leaves selections in the text.
pub proof fn law_edit_keeps_selections_in_text(
    buffer: BufferModel,
    ranges: Seq<Range<usize>>,
    new: Seq<u16>,
    set_id: SelectionSetId,
)
    requires
        buffer.edit_fits(ranges, new),
        buffer.local.contains_key(set_id),
        in_text(buffer.text, buffer.local[set_id]),
    ensures
        in_text(buffer.edited(ranges, new).text, buffer.edited(ranges, new).local[set_id]),
    decreases ranges.len(),
{
    if ranges.len() > 0 {
        let range = ranges.last();
        let after = buffer.spliced(range, new);
        let before = buffer.local[set_id];
        let moved = after.local[set_id];
        assert(moved == moved_ranges(buffer.text, before, range, new));
        assert forall|i: int| 0 <= i < moved.len() implies text::is_position(
            after.text,
            (#[trigger] moved[i]).start,
        ) && text::is_position(after.text, moved[i].end) by {
            let a = before[i].start;
            let b = before[i].end;
            if b.before(a) {
                law_moved_points_stay_in_order(buffer.text, b, a, range, new);
            } else {
                law_moved_points_stay_in_order(buffer.text, a, b, range, new);
            }
        }
        law_edit_keeps_selections_in_text(after, ranges.drop_last(), new, set_id);
    }
}

/// An edit adds no more to the text than what is inserted.
pub proof fn lemma_edited_len(buffer: BufferModel, ranges: Seq<Range<usize>>, new: Seq<u16>)
    ensures
        buffer.edited(ranges, new).text.len() <= buffer.text.len() + ranges.len() * new.len(),
    decreases ranges.len(),
{
    if ranges.len() > 0 {
        let after = buffer.spliced(ranges.last(), new);
        let count = ranges.len();
        let size = new.len();
        assert(count * size == (count - 1) * size + size) by (nonlinear_arith);
        assert(after.text.len() <= buffer.text.len() + size);
        lemma_edited_len(after, ranges.drop_last(), new);
    }
}

/// An edit of no ranges changes nothing.
pub proof fn law_edit_of_nothing(buffer: BufferModel, new: Seq<u16>)
    ensures
        buffer.edited(Seq::empty(), new) == buffer,
{
}

/// Putting one selection set in place leaves the text and the other sets as they
/// are.
pub proof fn law_sets_are_independent(
    buffer: BufferModel,
    set_id: SelectionSetId,
    ranges: Seq<Range<Point>>,
    other: SelectionSetId,
)
    requires
        other != set_id,
    ensures
        buffer.with_set(set_id, ranges).text == buffer.text,
        buffer.with_set(set_id, ranges).remote == buffer.remote,
        buffer.with_set(set_id, ranges).local.contains_key(other) == buffer.local.contains_key(
            other,
        ),
        buffer.with_set(set_id, ranges).local[other] == buffer.local[other],
{
}

/// Removing a selection set that was added under a fresh number leaves the sets
/// as they were.
pub proof fn law_removing_undoes_adding(buffer: BufferModel, ranges: Seq<Range<Point>>)
    requires
        !buffer.local.contains_key(buffer.next_set_id),
    ensures
        buffer.with_set(buffer.next_set_id, ranges).local.remove(buffer.next_set_id)
            == buffer.local,
{
    assert(buffer.with_set(buffer.next_set_id, ranges).local.remove(buffer.next_set_id)
        =~= buffer.local);
}

/// A buffer that takes in another text has just that text. A selection of this replica
/// stays where it is, as far as the new text goes: in a row that the new text has, at its
/// column or at the end of the row; and else at the end of the text. All observers have
/// something to see, and nothing is told to the peers.
pub proof fn law_text_is_taken_in(
    buffer: BufferModel,
    text: Seq<u16>,
    id: SelectionSetId,
    index: int,
)
    requires
        text::fits(text),
        buffer.local.contains_key(id),
        0 <= index < buffer.local[id].len(),
    ensures
        ({
            let after = buffer.with_text(text);
            &&& after.text == text
            &&& after.remote == buffer.remote
            &&& after.outgoing == buffer.outgoing
            &&& after.id == buffer.id
            &&& after.next_set_id == buffer.next_set_id
            &&& after.local.dom() == buffer.local.dom()
            &&& after.local[id].len() == buffer.local[id].len()
            &&& is_kept(text, buffer.local[id][index].start, after.local[id][index].start)
            &&& is_kept(text, buffer.local[id][index].end, after.local[id][index].end)
            &&& after.unseen.len() == buffer.unseen.len()
            &&& forall|i: int| 0 <= i < after.unseen.len() ==> #[trigger] after.unseen[i]
        }),
{
    let range = buffer.local[id][index];
    lemma_kept(text, range.start);
    lemma_kept(text, range.end);
    assert(buffer.with_text(text).local.dom() =~= buffer.local.dom());
}

/// Whether a point is kept as far as a text goes.
pub open spec fn is_kept(text: Seq<u16>, before: Point, after: Point) -> bool {
    &&& text::is_position(text, after)
    &&& before.row < text::rows(text).len() ==> after.row == before.row && after.column == (
    if before.column <= text::rows(text)[before.row as int].len() {
        before.column as int
    } else {
        text::rows(text)[before.row as int].len() as int
    })
    &&& before.row >= text::rows(text).len() ==> text::offset_of(text, after) == text.len()
}

proof fn lemma_kept(text: Seq<u16>, point: Point)
    requires
        text::fits(text),
    ensures
        is_kept(text, point, text::clipped(text, point)),
{
    text::lemma_offset_in_text(text, point);
    text::lemma_point_at(text, text::offset_of(text, point));
    if point.row < text::rows(text).len() {
        let row = point.row as int;
        text::lemma_row_in_text(text, row);
        let len = text::rows(text)[row].len();
        let place = if point.column <= len {
            point
        } else {
            Point { row: point.row, column: len as u32 }
        };
        assert(text::offset_of(text, place) == text::offset_of(text, point));
        text::lemma_point_of_offset(text, place);
    }
}

/// Which sets the map of a list of sets holds, and what it holds for each.
pub proof fn lemma_set_map(sets: Seq<SelectionSet>)
    requires
        distinct_ids(sets),
    ensures
        forall|i: int|
            0 <= i < sets.len() ==> set_map(sets).contains_key((#[trigger] sets[i]).id) && set_map(
                sets,
            )[sets[i].id] == sets[i].ranges@,
        forall|id: SelectionSetId|
            set_map(sets).contains_key(id) ==> exists|i: int|
                0 <= i < sets.len() && (#[trigger] sets[i]).id == id,
    decreases sets.len(),
{
    if sets.len() > 0 {
        let fewer = sets.drop_last();
        lemma_set_map(fewer);
        assert forall|i: int| 0 <= i < sets.len() implies set_map(sets).contains_key(
            (#[trigger] sets[i]).id,
        ) && set_map(sets)[sets[i].id] == sets[i].ranges@ by {
            if i < fewer.len() {
                assert(fewer[i] == sets[i]);
            }
        }
        assert forall|id: SelectionSetId| set_map(sets).contains_key(id) implies exists|i: int|
            0 <= i < sets.len() && (#[trigger] sets[i]).id == id by {
            if id == sets.last().id {
                assert(sets[sets.len() - 1].id == id);
            } else {
                assert(set_map(fewer).contains_key(id));
                let i = choose|i: int| 0 <= i < fewer.len() && (#[trigger] fewer[i]).id == id;
                assert(sets[i].id == id);
            }
        }
    }
}

/// The map of a list of sets changes with the one set that is replaced.
proof fn lemma_set_map_update(sets: Seq<SelectionSet>, index: int, set: SelectionSet)
    requires
        distinct_ids(sets),
        0 <= index < sets.len(),
        set.id == sets[index].id,
    ensures
        distinct_ids(sets.update(index, set)),
        set_map(sets.update(index, set)) == set_map(sets).insert(set.id, set.ranges@),
{
    let updated = sets.update(index, set);
    lemma_set_map(sets);
    assert(distinct_ids(updated)) by {
        assert forall|i: int, j: int| 0 <= i < j < updated.len() implies updated[i].id
            != updated[j].id by {
            assert(sets[i].id != sets[j].id);
        }
    }
    lemma_set_map(updated);
    assert forall|id: SelectionSetId| #[trigger]
        set_map(updated).contains_key(id) <==> set_map(sets).insert(
            set.id,
            set.ranges@,
        ).contains_key(id) by {
        if set_map(updated).contains_key(id) {
            let i = choose|i: int| 0 <= i < updated.len() && (#[trigger] updated[i]).id == id;
            assert(sets[i].id == id);
        }
        if set_map(sets).contains_key(id) {
            let i = choose|i: int| 0 <= i < sets.len() && (#[trigger] sets[i]).id == id;
            assert(updated[i].id == id);
        }
        assert(updated[index].id == set.id);
    }
    assert forall|id: SelectionSetId| #[trigger] set_map(updated).contains_key(id) implies set_map(
        updated,
    )[id] == set_map(sets).insert(set.id, set.ranges@)[id] by {
        let i = choose|i: int| 0 <= i < updated.len() && (#[trigger] updated[i]).id == id;
        assert(sets[i].id == id);
    }
    assert(set_map(updated) =~= set_map(sets).insert(set.id, set.ranges@));
}

/// The map of a list of sets loses the one set that is removed.
proof fn lemma_set_map_remove(sets: Seq<SelectionSet>, index: int)
    requires
        distinct_ids(sets),
        0 <= index < sets.len(),
    ensures
        distinct_ids(sets.remove(index)),
        set_map(sets.remove(index)) == set_map(sets).remove(sets[index].id),
{
    let removed = sets.remove(index);
    lemma_set_map(sets);
    assert(distinct_ids(removed)) by {
        assert forall|i: int, j: int| 0 <= i < j < removed.len() implies removed[i].id
            != removed[j].id by {
            let k = if i < index { i } else { i + 1 };
            let l = if j < index { j } else { j + 1 };
            assert(sets[k].id != sets[l].id);
        }
    }
    lemma_set_map(removed);
    let gone = sets[index].id;
    assert forall|id: SelectionSetId| #[trigger]
        set_map(removed).contains_key(id) <==> set_map(sets).remove(gone).contains_key(id) by {
        if set_map(removed).contains_key(id) {
            let i = choose|i: int| 0 <= i < removed.len() && (#[trigger] removed[i]).id == id;
            let k = if i < index { i } else { i + 1 };
            assert(sets[k].id == id);
            assert(sets[k].id != gone);
        }
        if set_map(sets).remove(gone).contains_key(id) {
            let k = choose|k: int| 0 <= k < sets.len() && (#[trigger] sets[k]).id == id;
            let i = if k < index { k } else { k - 1 };
            assert(removed[i].id == id);
        }
    }
    assert forall|id: SelectionSetId| #[trigger] set_map(removed).contains_key(id) implies set_map(
        removed,
    )[id] == set_map(sets).remove(gone)[id] by {
        let i = choose|i: int| 0 <= i < removed.len() && (#[trigger] removed[i]).id == id;
        let k = if i < index { i } else { i + 1 };
        assert(sets[k] == removed[i]);
    }
    assert(set_map(removed) =~= set_map(sets).remove(gone));
}

/// Where the ranges of each set of a list change, so do those in its map.
proof fn lemma_set_map_values(
    before: Seq<SelectionSet>,
    after: Seq<SelectionSet>,
    change: spec_fn(Seq<Range<Point>>) -> Seq<Range<Point>>,
)
    requires
        before.len() == after.len(),
        forall|i: int|
            0 <= i < before.len() ==> (#[trigger] after[i]).id == before[i].id && after[i].ranges@
                == change(before[i].ranges@),
    ensures
        set_map(after) == set_map(before).map_values(change),
    decreases before.len(),
{
    if before.len() > 0 {
        lemma_set_map_values(before.drop_last(), after.drop_last(), change);
        assert(after[after.len() - 1].id == before.last().id);
        assert(set_map(after) =~= set_map(before).map_values(change));
    } else {
        assert(set_map(after) =~= set_map(before).map_values(change));
    }
}

/// A range whose ends are taken for positions lies in the text.
proof fn lemma_clip_ranges(text: Seq<u16>, ranges: Seq<Range<Point>>)
    requires
        text::fits(text),
    ensures
        in_text(text, clip_ranges(text, ranges)),
{
    assert forall|i: int| 0 <= i < ranges.len() implies text::is_position(
        text,
        (#[trigger] clip_ranges(text, ranges)[i]).start,
    ) && text::is_position(text, clip_ranges(text, ranges)[i].end) by {
        text::lemma_offset_in_text(text, ranges[i].start);
        text::lemma_offset_in_text(text, ranges[i].end);
        text::lemma_point_at(text, text::offset_of(text, ranges[i].start));
        text::lemma_point_at(text, text::offset_of(text, ranges[i].end));
    }
}

/// Ranges that lie in the text are taken as they are.
pub proof fn lemma_clip_in_text(text: Seq<u16>, ranges: Seq<Range<Point>>)
    requires
        text::fits(text),
        in_text(text, ranges),
    ensures
        clip_ranges(text, ranges) == ranges,
{
    assert forall|i: int| 0 <= i < ranges.len() implies clip_range(text, #[trigger] ranges[i])
        == ranges[i] by {
        text::lemma_point_of_offset(text, ranges[i].start);
        text::lemma_point_of_offset(text, ranges[i].end);
    }
    assert(clip_ranges(text, ranges) =~= ranges);
}

/// A moved position is a position in the new text.
proof fn lemma_moved_point(text: Seq<u16>, point: Point, range: Range<usize>, new: Seq<u16>)
    requires
        text::fits(text::splice(text, range, new)),
    ensures
        text::is_position(
            text::splice(text, range, new),
            moved_point(text, point, range, new),
        ),
        0 <= text::moved_offset(text, text::offset_of(text, point), range, new)
            <= text::splice(text, range, new).len(),
{
    text::lemma_offset_in_text(text, point);
    text::lemma_point_at(
        text::splice(text, range, new),
        text::moved_offset(text, text::offset_of(text, point), range, new),
    );
}

/// The ranges with their ends taken for positions in the text.
fn clip(text: &Vec<u16>, ranges: &Vec<Range<Point>>) -> (clipped: Vec<Range<Point>>)
    requires
        text::fits(text@),
    ensures
        clipped@ == clip_ranges(text@, ranges@),
{
    let mut clipped: Vec<Range<Point>> = Vec::new();
    let mut i: usize = 0;
    while i < ranges.len()
        invariant
            i <= ranges.len(),
            text::fits(text@),
            clipped@ == clip_ranges(text@, ranges@).take(i as int),
        decreases ranges.len() - i,
    {
        let start = text::point_for_offset(text, text::offset_for_point(text, ranges[i].start));
        let end = text::point_for_offset(text, text::offset_for_point(text, ranges[i].end));
        clipped.push(start..end);
        i += 1;
        assert(clipped@ =~= clip_ranges(text@, ranges@).take(i as int));
    }
    assert(clipped@ =~= clip_ranges(text@, ranges@));
    clipped
}

/// A copy of a stretch of code units.
pub(crate) fn copy_units(units: &Vec<u16>, start: usize, end: usize) -> (copy: Vec<u16>)
    requires
        start <= end <= units@.len(),
    ensures
        copy@ == units@.subrange(start as int, end as int),
        start == 0 && end == units@.len() ==> copy@ == units@,
{
    let mut copy: Vec<u16> = Vec::new();
    let mut i: usize = start;
    while i < end
        invariant
            start <= i <= end <= units@.len(),
            copy@ == units@.subrange(start as int, i as int),
        decreases end - i,
    {
        copy.push(units[i]);
        i += 1;
        assert(copy@ =~= units@.subrange(start as int, i as int));
    }
    assert(start == 0 && end == units@.len() ==> copy@ =~= units@);
    copy
}

/// A copy of the selections of another replica.
fn copy_remote(remote: &RemoteSelections) -> (copy: RemoteSelections)
    ensures
        copy@ == remote@,
{
    let mut sets: Vec<Vec<Range<Point>>> = Vec::new();
    let mut i: usize = 0;
    while i < remote.sets.len()
        invariant
            i <= remote.sets@.len(),
            sets@.len() == i,
            forall|j: int| 0 <= j < i ==> (#[trigger] sets@[j])@ == remote.sets@[j]@,
        decreases remote.sets@.len() - i,
    {
        sets.push(copy_ranges(&remote.sets[i]));
        i += 1;
    }
    let copy = RemoteSelections { replica_id: remote.replica_id, sets };
    assert(copy@.sets =~= remote@.sets);
    copy
}

/// A copy of all selections in a buffer.
pub fn copy_selection_ranges(ranges: &SelectionRanges) -> (copy: SelectionRanges)
    ensures
        copy@ == ranges@,
{
    let mut local: Vec<SelectionSet> = Vec::new();
    let mut i: usize = 0;
    while i < ranges.local.len()
        invariant
            i <= ranges.local@.len(),
            local@.len() == i,
            forall|j: int|
                0 <= j < i ==> (#[trigger] local@[j]).id == ranges.local@[j].id
                    && local@[j].ranges@ == ranges.local@[j].ranges@,
        decreases ranges.local@.len() - i,
    {
        local.push(
            SelectionSet { id: ranges.local[i].id, ranges: copy_ranges(&ranges.local[i].ranges) },
        );
        i += 1;
    }
    let mut remote: Vec<RemoteSelections> = Vec::new();
    let mut k: usize = 0;
    while k < ranges.remote.len()
        invariant
            k <= ranges.remote@.len(),
            remote@.len() == k,
            forall|j: int| 0 <= j < k ==> (#[trigger] remote@[j])@ == ranges.remote@[j]@,
        decreases ranges.remote@.len() - k,
    {
        remote.push(copy_remote(&ranges.remote[k]));
        k += 1;
    }
    let copy = SelectionRanges { local, remote };
    assert(copy@ =~= ranges@);
    copy
}

/// Where ranges of positions move when a range of the text is replaced.
fn move_ranges(
    before: &Vec<u16>,
    after: &Vec<u16>,
    ranges: &Vec<Range<Point>>,
    range: &Range<usize>,
    new: &Vec<u16>,
) -> (moved: Vec<Range<Point>>)
    requires
        text::fits(before@),
        text::fits(after@),
        after@ == text::splice(before@, *range, new@),
    ensures
        moved@ == moved_ranges(before@, ranges@, *range, new@),
        in_text(after@, moved@),
{
    let mut moved: Vec<Range<Point>> = Vec::new();
    let mut i: usize = 0;
    while i < ranges.len()
        invariant
            i <= ranges.len(),
            text::fits(before@),
            text::fits(after@),
            after@ == text::splice(before@, *range, new@),
            moved@ == moved_ranges(before@, ranges@, *range, new@).take(i as int),
            in_text(after@, moved@),
        decreases ranges.len() - i,
    {
        let start = move_point(before, after, ranges[i].start, range, new);
        let end = move_point(before, after, ranges[i].end, range, new);
        moved.push(start..end);
        i += 1;
        assert(moved@ =~= moved_ranges(before@, ranges@, *range, new@).take(i as int));
    }
    assert(moved@ =~= moved_ranges(before@, ranges@, *range, new@));
    moved
}

/// Where each of several sets of ranges moves when a range of the text is
/// replaced.
fn move_sets(
    before: &Vec<u16>,
    after: &Vec<u16>,
    sets: &Vec<Vec<Range<Point>>>,
    range: &Range<usize>,
    new: &Vec<u16>,
) -> (moved: Vec<Vec<Range<Point>>>)
    requires
        text::fits(before@),
        text::fits(after@),
        after@ == text::splice(before@, *range, new@),
    ensures
        moved@.map_values(|set: Vec<Range<Point>>| set@) == sets@.map_values(
            |set: Vec<Range<Point>>| moved_ranges(before@, set@, *range, new@),
        ),
{
    let mut moved: Vec<Vec<Range<Point>>> = Vec::new();
    let mut i: usize = 0;
    while i < sets.len()
        invariant
            i <= sets.len(),
            text::fits(before@),
            text::fits(after@),
            after@ == text::splice(before@, *range, new@),
            moved@.len() == i,
            forall|j: int|
                0 <= j < i ==> (#[trigger] moved@[j])@ == moved_ranges(
                    before@,
                    sets@[j]@,
                    *range,
                    new@,
                ),
        decreases sets.len() - i,
    {
        moved.push(move_ranges(before, after, &sets[i], range, new));
        i += 1;
    }
    assert(moved@.map_values(|set: Vec<Range<Point>>| set@) =~= sets@.map_values(
        |set: Vec<Range<Point>>| moved_ranges(before@, set@, *range, new@),
    ));
    moved
}

/// Where a position moves when a range of the text is replaced.
fn move_point(
    before: &Vec<u16>,
    after: &Vec<u16>,
    point: Point,
    range: &Range<usize>,
    new: &Vec<u16>,
) -> (moved: Point)
    requires
        text::fits(before@),
        text::fits(after@),
        after@ == text::splice(before@, *range, new@),
    ensures
        moved == moved_point(before@, point, *range, new@),
        text::is_position(after@, moved),
{
    let offset = text::offset_for_point(before, point);
    let start: usize = if range.start <= before.len() {
        range.start
    } else {
        before.len()
    };
    let end: usize = if range.end <= start {
        start
    } else if range.end <= before.len() {
        range.end
    } else {
        before.len()
    };
    proof {
        lemma_moved_point(before@, point, *range, new@);
        assert(after@.len() == before@.len() - (end - start) + new@.len());
        assert(after.len() >= 0);
    }
    let moved: usize = if offset <= start {
        offset
    } else if offset <= end {
        start + new.len()
    } else {
        offset - (end - start) + new.len()
    };
    text::point_for_offset(after, moved)
}

/// An open text and the selections in it. Other replicas learn of what is done
/// here through the operations that `take_outgoing` hands out.
pub struct Buffer {
    id: BufferId,
    text: Vec<u16>,
    local: Vec<SelectionSet>,
    remote: Vec<RemoteSelections>,
    next_set_id: SelectionSetId,
    updates: NotifyCell<()>,
    outgoing: Vec<Operation>,
}

impl View for Buffer {
    type V = BufferModel;

    closed spec fn view(&self) -> BufferModel {
        BufferModel {
            id: self.id,
            text: self.text@,
            local: set_map(self.local@),
            remote: remote_models(self.remote@),
            next_set_id: self.next_set_id,
            unseen: self.updates.unseen(),
            outgoing: self.outgoing@.map_values(|op: Operation| op@),
        }
    }
}

impl Buffer {
    /// Numbers of selection sets are not used twice, and every selection of this
    /// replica lies in the text.
    pub closed spec fn wf(&self) -> bool {
        &&& text::fits(self.text@)
        &&& distinct_ids(self.local@)
        &&& forall|i: int| 0 <= i < self.local@.len() ==> self.local@[i].id < self.next_set_id
        &&& forall|i: int|
            0 <= i < self.local@.len() ==> in_text(self.text@, (#[trigger] self.local@[i]).ranges@)
    }

    /// Every selection of this replica lies in the text, and the number of its set
    /// was given out before the next.
    pub proof fn law_selections_lie_in_text(&self)
        requires
            self.wf(),
        ensures
            text::fits(self@.text),
            forall|id: SelectionSetId| #[trigger]
                self@.local.contains_key(id) ==> id < self@.next_set_id && in_text(
                    self@.text,
                    self@.local[id],
                ),
    {
        lemma_set_map(self.local@);
        assert forall|id: SelectionSetId| #[trigger] self@.local.contains_key(id) implies id
            < self@.next_set_id && in_text(self@.text, self@.local[id]) by {
            let i = choose|i: int| 0 <= i < self.local@.len() && (#[trigger] self.local@[i]).id == id;
        }
    }

    pub fn new(id: BufferId, text: Vec<u16>) -> (buffer: Buffer)
        requires
            text::fits(text@),
        ensures
            buffer.wf(),
            buffer@ == (BufferModel {
                id,
                text: text@,
                local: Map::empty(),
                remote: Seq::empty(),
                next_set_id: 0,
                unseen: Seq::empty(),
                outgoing: Seq::empty(),
            }),
    {
        let buffer = Buffer {
            id,
            text,
            local: Vec::new(),
            remote: Vec::new(),
            next_set_id: 0,
            updates: NotifyCell::new(()),
            outgoing: Vec::new(),
        };
        assert(buffer@.remote =~= Seq::empty());
        assert(buffer@.outgoing =~= Seq::empty());
        buffer
    }

    pub fn id(&self) -> (id: BufferId)
        ensures
            id == self@.id,
    {
        self.id
    }

    /// The place of a selection set in the list of sets.
    fn set_index(&self, set_id: SelectionSetId) -> (index: Option<usize>)
        requires
            self.wf(),
        ensures
            match index {
                Some(index) => index < self.local@.len() && self.local@[index as int].id == set_id
                    && self@.local.contains_key(set_id) && self@.local[set_id]
                    == self.local@[index as int].ranges@,
                None => !self@.local.contains_key(set_id),
            },
    {
        proof {
            lemma_set_map(self.local@);
        }
        let mut i: usize = 0;
        while i < self.local.len()
            invariant
                i <= self.local@.len(),
                forall|j: int| 0 <= j < i ==> (#[trigger] self.local@[j]).id != set_id,
                self@.local == set_map(self.local@),
                forall|j: int|
                    0 <= j < self.local@.len() ==> set_map(self.local@).contains_key(
                        (#[trigger] self.local@[j]).id,
                    ) && set_map(self.local@)[self.local@[j].id] == self.local@[j].ranges@,
            decreases self.local@.len() - i,
        {
            if self.local[i].id == set_id {
                return Some(i);
            }
            i += 1;
        }
        None
    }

    /// Replaces one range of the text, and moves every selection along.
    fn splice(&mut self, range: &Range<usize>, new: &Vec<u16>)
        requires
            old(self).wf(),
            text::fits(text::splice(old(self)@.text, *range, new@)),
        ensures
            final(self).wf(),
            final(self)@ == old(self)@.spliced(*range, new@),
    {
        let ghost before = *self;
        let text = text::splice_text(&self.text, range, new);
        let ghost change = |set: Seq<Range<Point>>| moved_ranges(before.text@, set, *range, new@);
        let mut local: Vec<SelectionSet> = Vec::new();
        let mut i: usize = 0;
        while i < self.local.len()
            invariant
                *self == before,
                self.wf(),
                i <= self.local@.len(),
                text::fits(text@),
                text@ == text::splice(self.text@, *range, new@),
                local@.len() == i,
                forall|j: int|
                    0 <= j < i ==> (#[trigger] local@[j]).id == self.local@[j].id
                        && local@[j].ranges@ == moved_ranges(
                        self.text@,
                        self.local@[j].ranges@,
                        *range,
                        new@,
                    ) && in_text(text@, local@[j].ranges@),
            decreases self.local@.len() - i,
        {
            let ranges = move_ranges(&self.text, &text, &self.local[i].ranges, range, new);
            local.push(SelectionSet { id: self.local[i].id, ranges });
            i += 1;
        }
        let mut remote: Vec<RemoteSelections> = Vec::new();
        let mut k: usize = 0;
        while k < self.remote.len()
            invariant
                *self == before,
                self.wf(),
                k <= self.remote@.len(),
                text::fits(text@),
                text@ == text::splice(self.text@, *range, new@),
                remote@.len() == k,
                forall|j: int|
                    0 <= j < k ==> (#[trigger] remote@[j])@ == moved_remote(
                        self.text@,
                        self.remote@[j]@,
                        *range,
                        new@,
                    ),
            decreases self.remote@.len() - k,
        {
            let sets = move_sets(&self.text, &text, &self.remote[k].sets, range, new);
            remote.push(RemoteSelections { replica_id: self.remote[k].replica_id, sets });
            assert(remote@[k as int]@.sets =~= moved_remote(
                self.text@,
                self.remote@[k as int]@,
                *range,
                new@,
            ).sets);
            k += 1;
        }
        self.text = text;
        self.local = local;
        self.remote = remote;
        proof {
            lemma_set_map_values(before.local@, self.local@, change);
            assert(self@.remote =~= before@.spliced(*range, new@).remote);
        }
    }

    /// Queues what the peers are to be told.
    fn tell(&mut self, operation: Operation)
        requires
            old(self).wf(),
        ensures
            final(self).wf(),
            final(self)@ == old(self)@.telling(operation@),
    {
        self.outgoing.push(operation);
        assert(self@.outgoing =~= old(self)@.telling(operation@).outgoing);
    }

    /// Gives every observer something to see.
    fn notify(&mut self)
        requires
            old(self).wf(),
        ensures
            final(self).wf(),
            final(self)@ == old(self)@.notified(),
    {
        self.updates.set(());
    }

    /// Replaces each of the ranges with the new text. The ranges are given in
    /// ascending order and do not overlap; an offset past the end of the text is
    /// taken for the end.
    pub fn edit(&mut self, old_ranges: Vec<Range<usize>>, new_text: &str) -> (result: Result<(), Error>)
        requires
            old(self).wf(),
            old(self)@.edit_fits(old_ranges@, utf16::units_of(new_text@)),
        ensures
            final(self).wf(),
            result == Ok::<(), Error>(()),
            final(self)@ == old(self)@.edited(old_ranges@, utf16::units_of(new_text@)).telling(
                OperationModel::Edit {
                    old_ranges: old_ranges@,
                    text: utf16::units_of(new_text@),
                },
            ).notified(),
    {
        let new = utf16::encode(new_text);
        let mut i: usize = old_ranges.len();
        assert(old_ranges@.take(i as int) =~= old_ranges@);
        while i > 0
            invariant
                i <= old_ranges.len(),
                self.wf(),
                new@ == utf16::units_of(new_text@),
                self@.edit_fits(old_ranges@.take(i as int), new@),
                self@.edited(old_ranges@.take(i as int), new@) == old(self)@.edited(
                    old_ranges@,
                    new@,
                ),
            decreases i,
        {
            proof {
                assert(old_ranges@.take(i as int).drop_last() =~= old_ranges@.take(i - 1));
                assert(old_ranges@.take(i as int).last() == old_ranges@[i - 1]);
            }
            i -= 1;
            self.splice(&old_ranges[i], &new);
        }
        self.tell(Operation::Edit { old_ranges, text: new });
        self.notify();
        Ok(())
    }

    /// Replaces each of the ranges with the new text, the ranges given by points.
    pub fn edit_2d(&mut self, old_ranges: Vec<Range<Point>>, new_text: &str) -> (result: Result<
        (),
        Error,
    >)
        requires
            old(self).wf(),
            old(self)@.edit_fits(
                offset_ranges(old(self)@.text, old_ranges@),
                utf16::units_of(new_text@),
            ),
        ensures
            final(self).wf(),
            result == Ok::<(), Error>(()),
            final(self)@ == old(self)@.edited(
                offset_ranges(old(self)@.text, old_ranges@),
                utf16::units_of(new_text@),
            ).telling(
                OperationModel::Edit {
                    old_ranges: offset_ranges(old(self)@.text, old_ranges@),
                    text: utf16::units_of(new_text@),
                },
            ).notified(),
    {
        let mut offsets: Vec<Range<usize>> = Vec::new();
        let mut i: usize = 0;
        while i < old_ranges.len()
            invariant
                *self == *old(self),
                self.wf(),
                i <= old_ranges.len(),
                offsets@ == offset_ranges(self@.text, old_ranges@).take(i as int),
            decreases old_ranges.len() - i,
        {
            let start = text::offset_for_point(&self.text, old_ranges[i].start);
            let end = text::offset_for_point(&self.text, old_ranges[i].end);
            offsets.push(start..end);
            i += 1;
            assert(offsets@ =~= offset_ranges(self@.text, old_ranges@).take(i as int));
        }
        assert(offsets@ =~= offset_ranges(self@.text, old_ranges@));
        self.edit(offsets, new_text)
    }

    /// Adds a selection set, under a number that no set has had.
    pub fn add_selection_set(&mut self, ranges: Vec<Range<Point>>) -> (result: Result<
        SelectionSetId,
        Error,
    >)
        requires
            old(self).wf(),
            old(self)@.next_set_id < u64::MAX,
        ensures
            final(self).wf(),
            result == Ok::<SelectionSetId, Error>(old(self)@.next_set_id),
            !old(self)@.local.contains_key(old(self)@.next_set_id),
            final(self)@ == (BufferModel {
                next_set_id: (old(self)@.next_set_id + 1) as u64,
                ..old(self)@.with_set(old(self)@.next_set_id, ranges@).telling(
                    OperationModel::SetSelections {
                        set_id: old(self)@.next_set_id,
                        ranges: clip_ranges(old(self)@.text, ranges@),
                    },
                ).notified()
            }),
    {
        let set_id = self.next_set_id;
        let clipped = clip(&self.text, &ranges);
        let copy = copy_ranges(&clipped);
        proof {
            self.law_selections_lie_in_text();
            lemma_clip_ranges(self.text@, ranges@);
        }
        let ghost before = self.local@;
        self.local.push(SelectionSet { id: set_id, ranges: clipped });
        self.next_set_id = set_id + 1;
        assert(self.local@.drop_last() =~= before);
        self.tell(Operation::SetSelections { set_id, ranges: copy });
        self.notify();
        Ok(set_id)
    }

    /// Replaces the ranges of a selection set.
    pub fn replace_selection_set(
        &mut self,
        set_id: SelectionSetId,
        ranges: Vec<Range<Point>>,
    ) -> (result: Result<(), Error>)
        requires
            old(self).wf(),
        ensures
            final(self).wf(),
            old(self)@.local.contains_key(set_id) ==> result == Ok::<(), Error>(()) && final(self)@
                == old(self)@.with_set(set_id, ranges@).telling(
                OperationModel::SetSelections {
                    set_id,
                    ranges: clip_ranges(old(self)@.text, ranges@),
                },
            ).notified(),
            !old(self)@.local.contains_key(set_id) ==> result == Err::<(), Error>(
                Error::Memo(MemoError::InvalidLocalSelectionSet(set_id)),
            ) && final(self)@ == old(self)@,
    {
        match self.set_index(set_id) {
            Some(index) => {
                let clipped = clip(&self.text, &ranges);
                let copy = copy_ranges(&clipped);
                let set = SelectionSet { id: set_id, ranges: clipped };
                proof {
                    lemma_clip_ranges(self.text@, ranges@);
                    lemma_set_map_update(self.local@, index as int, set);
                }
                self.local.set(index, set);
                self.tell(Operation::SetSelections { set_id, ranges: copy });
                self.notify();
                Ok(())
            },
            None => Err(Error::Memo(MemoError::InvalidLocalSelectionSet(set_id))),
        }
    }

    /// Removes a selection set. Observers are not told.
    pub fn remove_selection_set(&mut self, set_id: SelectionSetId) -> (result: Result<(), Error>)
        requires
            old(self).wf(),
        ensures
            final(self).wf(),
            old(self)@.local.contains_key(set_id) ==> result == Ok::<(), Error>(()) && final(self)@
                == (BufferModel { local: old(self)@.local.remove(set_id), ..old(self)@ }).telling(
                OperationModel::RemoveSelections { set_id },
            ),
            !old(self)@.local.contains_key(set_id) ==> result == Err::<(), Error>(
                Error::Memo(MemoError::InvalidLocalSelectionSet(set_id)),
            ) && final(self)@ == old(self)@,
    {
        match self.set_index(set_id) {
            Some(index) => {
                proof {
                    lemma_set_map_remove(self.local@, index as int);
                }
                self.local.remove(index);
                self.tell(Operation::RemoveSelections { set_id });
                Ok(())
            },
            None => Err(Error::Memo(MemoError::InvalidLocalSelectionSet(set_id))),
        }
    }

    /// The ranges of a selection set.
    pub fn selections(&self, set_id: SelectionSetId) -> (result: Result<Vec<Range<Point>>, Error>)
        requires
            self.wf(),
        ensures
            match result {
                Ok(ranges) => self@.local.contains_key(set_id) && ranges@ == self@.local[set_id],
                Err(error) => !self@.local.contains_key(set_id) && error == Error::Memo(
                    MemoError::InvalidLocalSelectionSet(set_id),
                ),
            },
    {
        match self.set_index(set_id) {
            Some(index) => Ok(copy_ranges(&self.local[index].ranges)),
            None => Err(Error::Memo(MemoError::InvalidLocalSelectionSet(set_id))),
        }
    }

    /// Replaces the ranges of a selection set with what a function makes of the
    /// buffer and of the ranges as they are.
    pub fn mutate_selections<F>(&mut self, set_id: SelectionSetId, f: F) -> (result: Result<(), Error>)
        where F: FnOnce(&Buffer, Vec<Range<Point>>) -> Vec<Range<Point>>

        requires
            old(self).wf(),
            forall|ranges: Vec<Range<Point>>|
                old(self)@.local.contains_key(set_id) && ranges@ == old(self)@.local[set_id]
                    ==> #[trigger] f.requires((old(self), ranges)),
        ensures
            final(self).wf(),
            old(self)@.local.contains_key(set_id) ==> result == Ok::<(), Error>(()) && exists|
                before: Vec<Range<Point>>,
                after: Vec<Range<Point>>,
            |
                before@ == old(self)@.local[set_id] && #[trigger] f.ensures(
                    (old(self), before),
                    after,
                ) && final(self)@ == old(self)@.with_set(set_id, after@).telling(
                    OperationModel::SetSelections {
                        set_id,
                        ranges: clip_ranges(old(self)@.text, after@),
                    },
                ).notified(),
            !old(self)@.local.contains_key(set_id) ==> result == Err::<(), Error>(
                Error::Memo(MemoError::InvalidLocalSelectionSet(set_id)),
            ) && final(self)@ == old(self)@,
    {
        match self.selections(set_id) {
            Ok(ranges) => {
                let after = f(self, ranges);
                self.replace_selection_set(set_id, after)
            },
            Err(error) => Err(error),
        }
    }

    /// The code units of the text.
    pub fn text(&self) -> (result: Result<Vec<u16>, Error>)
        ensures
            result matches Ok(text) && text@ == self@.text,
    {
        Ok(copy_units(&self.text, 0, self.text.len()))
    }

    /// The text as a string.
    pub fn to_string(&self) -> (string: String)
        ensures
            string@ == utf16::lossy(self@.text),
    {
        utf16::decode_lossy(&self.text)
    }

    /// All selections in the buffer.
    pub fn selection_ranges(&self) -> (result: Result<SelectionRanges, Error>)
        requires
            self.wf(),
        ensures
            result matches Ok(ranges) && set_map(ranges.local@) == self@.local && distinct_ids(
                ranges.local@,
            ) && remote_models(ranges.remote@) == self@.remote,
    {
        let mut local: Vec<SelectionSet> = Vec::new();
        let mut i: usize = 0;
        while i < self.local.len()
            invariant
                i <= self.local@.len(),
                local@.len() == i,
                forall|j: int|
                    0 <= j < i ==> (#[trigger] local@[j]).id == self.local@[j].id
                        && local@[j].ranges@ == self.local@[j].ranges@,
            decreases self.local@.len() - i,
        {
            local.push(
                SelectionSet { id: self.local[i].id, ranges: copy_ranges(&self.local[i].ranges) },
            );
            i += 1;
        }
        let mut remote: Vec<RemoteSelections> = Vec::new();
        let mut k: usize = 0;
        while k < self.remote.len()
            invariant
                k <= self.remote@.len(),
                remote@.len() == k,
                forall|j: int| 0 <= j < k ==> (#[trigger] remote@[j])@ == self.remote@[j]@,
            decreases self.remote@.len() - k,
        {
            remote.push(copy_remote(&self.remote[k]));
            k += 1;
        }
        proof {
            lemma_set_map_values(self.local@, local@, |set: Seq<Range<Point>>| set);
            assert(set_map(local@) =~= set_map(self.local@));
            assert(remote_models(remote@) =~= remote_models(self.remote@));
            assert forall|i: int, j: int| 0 <= i < j < local@.len() implies local@[i].id
                != local@[j].id by {
                assert(self.local@[i].id != self.local@[j].id);
            }
        }
        Ok(SelectionRanges { local, remote })
    }

    /// Takes in the text and the selections of other replicas as a peer's
    /// operations have left them. Selections of this replica are taken for
    /// positions in the new text.
    pub fn refresh(&mut self, text: Vec<u16>, remote: Vec<RemoteSelections>)
        requires
            old(self).wf(),
            text::fits(text@),
        ensures
            final(self).wf(),
            final(self)@ == (BufferModel { remote: remote_models(remote@), ..old(self)@ }).with_text(
                text@,
            ),
    {
        let mut local: Vec<SelectionSet> = Vec::new();
        let mut i: usize = 0;
        while i < self.local.len()
            invariant
                *self == *old(self),
                text::fits(text@),
                i <= self.local@.len(),
                local@.len() == i,
                forall|j: int|
                    0 <= j < i ==> (#[trigger] local@[j]).id == self.local@[j].id
                        && local@[j].ranges@ == clip_ranges(text@, self.local@[j].ranges@)
                        && in_text(text@, local@[j].ranges@),
            decreases self.local@.len() - i,
        {
            proof {
                lemma_clip_ranges(text@, self.local@[i as int].ranges@);
            }
            local.push(
                SelectionSet { id: self.local[i].id, ranges: clip(&text, &self.local[i].ranges) },
            );
            i += 1;
        }
        let ghost change = |set: Seq<Range<Point>>| clip_ranges(text@, set);
        proof {
            lemma_set_map_values(self.local@, local@, change);
        }
        self.text = text;
        self.local = local;
        self.remote = remote;
        self.notify();
    }

    /// Takes in another text. Selections of other replicas stay as they are.
    pub fn reset_text(&mut self, text: Vec<u16>)
        requires
            old(self).wf(),
            text::fits(text@),
        ensures
            final(self).wf(),
            final(self)@ == old(self)@.with_text(text@),
    {
        let mut remote: Vec<RemoteSelections> = Vec::new();
        remote.append(&mut self.remote);
        assert(remote@ =~= old(self).remote@);
        self.refresh(text, remote);
    }

    /// Adds an observer of updates.
    pub fn updates(&mut self) -> (observer: usize)
        requires
            old(self).wf(),
        ensures
            final(self).wf(),
            observer == old(self)@.unseen.len(),
            final(self)@ == (BufferModel { unseen: old(self)@.unseen.push(false), ..old(self)@ }),
    {
        self.updates.observe()
    }

    /// Whether there was an update since an observer last polled.
    pub fn poll_update(&mut self, observer: usize) -> (updated: bool)
        requires
            old(self).wf(),
            observer < old(self)@.unseen.len(),
        ensures
            final(self).wf(),
            updated == old(self)@.unseen[observer as int],
            final(self)@ == (BufferModel {
                unseen: old(self)@.unseen.update(observer as int, false),
                ..old(self)@
            }),
    {
        self.updates.poll(observer).is_some()
    }

    /// Hands out what the peers are to be told, in order.
    pub fn take_outgoing(&mut self) -> (outgoing: Vec<Operation>)
        requires
            old(self).wf(),
        ensures
            final(self).wf(),
            outgoing@.map_values(|op: Operation| op@) == old(self)@.outgoing,
            final(self)@ == (BufferModel { outgoing: Seq::empty(), ..old(self)@ }),
    {
        let mut outgoing: Vec<Operation> = Vec::new();
        outgoing.append(&mut self.outgoing);
        assert(outgoing@.map_values(|op: Operation| op@) =~= old(self)@.outgoing);
        assert(self@.outgoing =~= Seq::empty());
        outgoing
    }

    /// The number of code units in the text.
    pub fn len(&self) -> (result: Result<usize, Error>)
        ensures
            result matches Ok(len) && len == self@.text.len(),
    {
        Ok(self.text.len())
    }

    /// The length of a row, without the newline that ends it.
    pub fn len_for_row(&self, row: u32) -> (result: Result<u32, Error>)
        requires
            self.wf(),
        ensures
            result == (if row < text::rows(self@.text).len() {
                Ok(text::rows(self@.text)[row as int].len() as u32)
            } else {
                Err(Error::Memo(MemoError::OffsetOutOfRange))
            }),
            result matches Ok(len) ==> len == text::rows(self@.text)[row as int].len(),
    {
        proof {
            if row < text::rows(self.text@).len() {
                text::lemma_row_in_text(self.text@, row as int);
            }
        }
        match text::row_len(&self.text, row) {
            Some(len) => Ok(len),
            None => Err(Error::Memo(MemoError::OffsetOutOfRange)),
        }
    }

    /// The first of the longest rows.
    pub fn longest_row(&self) -> (result: Result<u32, Error>)
        requires
            self.wf(),
        ensures
            result matches Ok(row) && text::is_longest_row(self@.text, row as int),
    {
        Ok(text::longest_row(&self.text))
    }

    /// The position at the end of the text.
    pub fn max_point(&self) -> (result: Result<Point, Error>)
        requires
            self.wf(),
        ensures
            result == Ok::<Point, Error>(text::end_point(self@.text)),
    {
        Ok(text::last_position(&self.text))
    }

    /// A point, or the end of the text where that comes before it.
    pub fn clip_point(&self, original: Point) -> (result: Result<Point, Error>)
        requires
            self.wf(),
        ensures
            result == Ok::<Point, Error>(original.spec_min(text::end_point(self@.text))),
    {
        let max_point = text::last_position(&self.text);
        if max_point < original {
            Ok(max_point)
        } else {
            Ok(original)
        }
    }

    /// The code units of a row, without the newline that ends it.
    pub fn line(&self, row: u32) -> (result: Result<Vec<u16>, Error>)
        requires
            self.wf(),
        ensures
            match result {
                Ok(units) => row < text::rows(self@.text).len() && units@ == text::rows(
                    self@.text,
                )[row as int],
                Err(error) => row >= text::rows(self@.text).len() && error == Error::Memo(
                    MemoError::OffsetOutOfRange,
                ),
            },
    {
        match text::row_units(&self.text, row) {
            Some(units) => Ok(units),
            None => Err(Error::Memo(MemoError::OffsetOutOfRange)),
        }
    }

    /// The code units from a point to the end of the text, in order.
    pub fn iter_at_point(&self, point: Point) -> (result: Result<Vec<u16>, Error>)
        requires
            self.wf(),
        ensures
            result matches Ok(units) && units@ == self@.text.skip(
                text::offset_of(self@.text, point),
            ),
    {
        let offset = text::offset_for_point(&self.text, point);
        let units = copy_units(&self.text, offset, self.text.len());
        assert(units@ =~= self@.text.skip(text::offset_of(self@.text, point)));
        Ok(units)
    }

    /// The code units from a point back to the start of the text.
    pub fn backward_iter_at_point(&self, point: Point) -> (result: Result<Vec<u16>, Error>)
        requires
            self.wf(),
        ensures
            result matches Ok(units) && units@ == self@.text.take(
                text::offset_of(self@.text, point),
            ).reverse(),
    {
        let offset = text::offset_for_point(&self.text, point);
        let ghost before = self@.text.take(offset as int);
        let mut units: Vec<u16> = Vec::new();
        let mut i: usize = offset;
        while i > 0
            invariant
                i <= offset <= self.text@.len(),
                before == self.text@.take(offset as int),
                units@ == before.reverse().take(offset - i),
            decreases i,
        {
            i -= 1;
            units.push(self.text[i]);
            assert(units@ =~= before.reverse().take(offset - i));
        }
        assert(units@ =~= before.reverse());
        Ok(units)
    }
}

/// What is told as a mathematical value says all that is told.
pub proof fn law_operation_as_value(operation: Operation)
    ensures
        operation matches Operation::Edit { old_ranges, text } ==> operation@
            == (OperationModel::Edit { old_ranges: old_ranges@, text: text@ }),
        operation matches Operation::SetSelections { set_id, ranges } ==> operation@
            == (OperationModel::SetSelections { set_id, ranges: ranges@ }),
        operation matches Operation::RemoveSelections { set_id } ==> operation@
            == (OperationModel::RemoveSelections { set_id }),
{
}

/// Selections as a mathematical value are all selections, in their places.
pub proof fn law_selections_as_value(ranges: SelectionRanges, replica: int, set: int)
    ensures
        ranges@.local.len() == ranges.local@.len(),
        0 <= set < ranges.local@.len() ==> ranges@.local[set].0 == ranges.local@[set].id
            && ranges@.local[set].1 == ranges.local@[set].ranges@,
        ranges@.remote == remote_models(ranges.remote@),
        ranges@.remote.len() == ranges.remote@.len(),
        0 <= replica < ranges.remote@.len() ==> {
            let remote = ranges.remote@[replica];
            &&& ranges@.remote[replica].replica_id == remote.replica_id
            &&& ranges@.remote[replica].sets.len() == remote.sets@.len()
            &&& 0 <= set < remote.sets@.len() ==> ranges@.remote[replica].sets[set]
                == remote.sets@[set]@
        },
{
}

} // verus!
