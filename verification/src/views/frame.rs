//! What a view of a buffer shows: some of its rows, and the selections among
//! them.

use std::ops::Range;

use vstd::prelude::*;

use crate::buffer::{
    self, Buffer, BufferModel, RemoteModel, RemoteSelections, ReplicaId, SelectionRanges,
    SelectionSet, SelectionSetId,
};
use crate::point::Point;
use crate::sequences;
use crate::text;
use crate::utf16;

verus! {

/// A selection as it is drawn.
#[derive(Clone, Copy, Debug, PartialEq, Eq, Structural)]
pub struct SelectionProps {
    pub user_id: Option<ReplicaId>,
    pub start: Point,
    pub end: Point,
    pub reversed: bool,
    pub remote: bool,
}

/// A selection of this replica as it is drawn: from its earlier end to its later
/// one.
pub open spec fn local_props(range: Range<Point>) -> SelectionProps {
    let reversed = range.end.before(range.start);
    SelectionProps {
        user_id: None,
        start: if reversed {
            range.end
        } else {
            range.start
        },
        end: if reversed {
            range.start
        } else {
            range.end
        },
        reversed,
        remote: false,
    }
}

/// A selection of another replica as it is drawn.
pub open spec fn remote_props(user_id: ReplicaId, range: Range<Point>) -> SelectionProps {
    SelectionProps { user_id: Some(user_id), remote: true, ..local_props(range) }
}

impl SelectionProps {
    pub fn set_user_id(&mut self, user_id: ReplicaId)
        ensures
            *final(self) == (SelectionProps { user_id: Some(user_id), ..*old(self) }),
    {
        self.user_id = Some(user_id)
    }

    pub fn set_remote(&mut self, remote: bool)
        ensures
            *final(self) == (SelectionProps { remote, ..*old(self) }),
    {
        self.remote = remote
    }
}

impl Default for SelectionProps {
    fn default() -> (props: SelectionProps)
        ensures
            props == local_props(
                Range { start: Point { row: 0, column: 0 }, end: Point { row: 0, column: 0 } },
            ),
    {
        SelectionProps {
            user_id: None,
            start: Point::zero(),
            end: Point::zero(),
            reversed: false,
            remote: false,
        }
    }
}

impl From<&Range<Point>> for SelectionProps {
    fn from(range: &Range<Point>) -> (props: SelectionProps) {
        let reversed = range.end < range.start;
        let mut props = SelectionProps::default();
        if reversed {
            props.start = range.end;
            props.end = range.start;
        } else {
            props.start = range.start;
            props.end = range.end;
        }
        props.reversed = reversed;
        props
    }
}

impl vstd::std_specs::convert::FromSpecImpl<&Range<Point>> for SelectionProps {
    open spec fn obeys_from_spec() -> bool {
        true
    }

    open spec fn from_spec(range: &Range<Point>) -> SelectionProps {
        local_props(*range)
    }
}

/// How many selections in a row, from one of them on, start before a point.
pub open spec fn leading(selections: Seq<Range<Point>>, from: int, point: Point) -> nat
    decreases selections.len() - from,
{
    if 0 <= from < selections.len() && selections[from].start.before(point) {
        1 + leading(selections, from + 1, point)
    } else {
        0
    }
}

/// The first of the selections that reaches past a point or starts at it, where
/// the selections come in reading order.
pub open spec fn query_start(selections: Seq<Range<Point>>, point: Point) -> int {
    let index = leading(selections, 0, point) as int;
    if index < selections.len() && selections[index].start == point {
        index
    } else if index > 0 && point.before(selections[index - 1].end) {
        index - 1
    } else {
        index
    }
}

/// Where the selections end that start before a point, where they come in
/// reading order. All of them do before a point past the end of the text.
pub open spec fn query_end(
    selections: Seq<Range<Point>>,
    point: Point,
    max_point: Point,
) -> int {
    if max_point.before(point) {
        selections.len() as int
    } else {
        leading(selections, 0, point) as int
    }
}

/// The selections that are drawn with a range of the text.
pub open spec fn queried(
    selections: Seq<Range<Point>>,
    range: Range<Point>,
    max_point: Point,
) -> Seq<Range<Point>> {
    selections.subrange(
        query_start(selections, range.start),
        query_end(selections, range.end, max_point),
    )
}

/// What is drawn of the selection sets of another replica.
pub open spec fn shown_sets(
    user_id: ReplicaId,
    sets: Seq<Seq<Range<Point>>>,
    range: Range<Point>,
    max_point: Point,
) -> Seq<SelectionProps>
    decreases sets.len(),
{
    if sets.len() == 0 {
        Seq::empty()
    } else {
        shown_sets(user_id, sets.drop_last(), range, max_point) + queried(
            sets.last(),
            range,
            max_point,
        ).map_values(|selection: Range<Point>| remote_props(user_id, selection))
    }
}

/// What is drawn of the selections of other replicas.
pub open spec fn shown_remote(
    remote: Seq<RemoteModel>,
    range: Range<Point>,
    max_point: Point,
) -> Seq<SelectionProps>
    decreases remote.len(),
{
    if remote.len() == 0 {
        Seq::empty()
    } else {
        shown_remote(remote.drop_last(), range, max_point) + shown_sets(
            remote.last().replica_id,
            remote.last().sets,
            range,
            max_point,
        )
    }
}

/// What is drawn of the selections of this replica.
pub open spec fn shown_local(
    local: Seq<SelectionSet>,
    range: Range<Point>,
    max_point: Point,
) -> Seq<SelectionProps>
    decreases local.len(),
{
    if local.len() == 0 {
        Seq::empty()
    } else {
        shown_local(local.drop_last(), range, max_point) + queried(
            local.last().ranges@,
            range,
            max_point,
        ).map_values(|selection: Range<Point>| local_props(selection))
    }
}

/// What is drawn of all selections: those of other replicas come first.
pub open spec fn shown(
    ranges: SelectionRanges,
    range: Range<Point>,
    max_point: Point,
) -> Seq<SelectionProps> {
    shown_remote(buffer::remote_models(ranges.remote@), range, max_point) + shown_local(
        ranges.local@,
        range,
        max_point,
    )
}

/// Whether just what is drawn of the selections in a buffer is there, with the
/// selection sets of this replica in one order or another.
pub open spec fn shows(
    buffer: BufferModel,
    range: Range<Point>,
    props: Seq<SelectionProps>,
) -> bool {
    exists|ranges: SelectionRanges|
        buffer::set_map(ranges.local@) == buffer.local && buffer::distinct_ids(ranges.local@)
            && buffer::remote_models(ranges.remote@) == buffer.remote && props == #[trigger] shown(
            ranges,
            range,
            text::end_point(buffer.text),
        )
}

/// There are no more leading selections than selections, and each starts before
/// the point.
proof fn lemma_leading(selections: Seq<Range<Point>>, from: int, point: Point)
    requires
        0 <= from <= selections.len(),
    ensures
        from + leading(selections, from, point) <= selections.len(),
    decreases selections.len() - from,
{
    if from < selections.len() && selections[from].start.before(point) {
        lemma_leading(selections, from + 1, point);
    }
}

/// No fewer selections lead up to a later point.
proof fn lemma_leading_grows(
    selections: Seq<Range<Point>>,
    from: int,
    first: Point,
    second: Point,
)
    requires
        0 <= from <= selections.len(),
        !second.before(first),
    ensures
        leading(selections, from, first) <= leading(selections, from, second),
    decreases selections.len() - from,
{
    if from < selections.len() && selections[from].start.before(first) {
        lemma_leading_grows(selections, from + 1, first, second);
    }
}

/// The selections that are drawn with a range are some of the selections.
pub proof fn lemma_query(
    selections: Seq<Range<Point>>,
    range: Range<Point>,
    max_point: Point,
)
    requires
        !range.end.before(range.start),
    ensures
        0 <= query_start(selections, range.start) <= query_end(selections, range.end, max_point)
            <= selections.len(),
{
    lemma_leading(selections, 0, range.start);
    lemma_leading(selections, 0, range.end);
    lemma_leading_grows(selections, 0, range.start, range.end);
}

/// Of selections in the text, in reading order, that do not overlap, a range is drawn
/// with each that starts in it, and with no other but one that reaches into it.
pub proof fn law_query(
    selections: Seq<Range<Point>>,
    range: Range<Point>,
    max_point: Point,
    index: int,
)
    requires
        !range.end.before(range.start),
        max_point.before(range.end) ==> forall|i: int|
            0 <= i < selections.len() ==> !max_point.before((#[trigger] selections[i]).start),
        forall|i: int, j: int|
            0 <= i < j < selections.len() ==> !(#[trigger] selections[j]).start.before(
                (#[trigger] selections[i]).start,
            ) && !selections[j].start.before(selections[i].end),
        0 <= index < selections.len(),
    ensures
        query_start(selections, range.start) <= index < query_end(
            selections,
            range.end,
            max_point,
        ) <==> selections[index].start.before(range.end) && (!selections[index].start.before(
            range.start,
        ) || range.start.before(selections[index].end)),
{
    lemma_leading(selections, 0, range.start);
    lemma_leading_splits(selections, 0, range.start, index);
    lemma_leading_splits(selections, 0, range.end, index);
    let n = leading(selections, 0, range.start) as int;
    if n > 0 {
        lemma_leading_splits(selections, 0, range.start, n - 1);
        if index < n - 1 {
            assert(!selections[n - 1].start.before(selections[index].end));
        }
        if n < selections.len() {
            assert(!selections[n].start.before(selections[n - 1].end));
        }
    }
}

/// Of selections in reading order, just the leading ones start before the point.
proof fn lemma_leading_splits(
    selections: Seq<Range<Point>>,
    from: int,
    point: Point,
    index: int,
)
    requires
        0 <= from <= index < selections.len(),
        forall|i: int, j: int|
            0 <= i < j < selections.len() ==> !(#[trigger] selections[j]).start.before(
                (#[trigger] selections[i]).start,
            ),
    ensures
        index < from + leading(selections, from, point) <==> selections[index].start.before(point),
    decreases selections.len() - from,
{
    if selections[from].start.before(point) {
        if from < index {
            lemma_leading_splits(selections, from + 1, point, index);
        }
    } else if from < index {
        assert(!selections[index].start.before(selections[from].start));
    }
}

/// Whether a position comes before another in reading order.
pub open spec fn precedes(first: Point, second: Point) -> bool {
    first.row < second.row || (first.row == second.row && first.column < second.column)
}

/// Whether a selection is seen in a range of the text: it starts in it, or it starts
/// above and reaches into it.
pub open spec fn meets(range: Range<Point>) -> spec_fn(Range<Point>) -> bool {
    |selection: Range<Point>|
        precedes(selection.start, range.end) && (!precedes(selection.start, range.start)
            || precedes(range.start, selection.end))
}

/// Whether selections come in reading order, do not overlap and start in the text.
pub open spec fn is_orderly(selections: Seq<Range<Point>>, max_point: Point) -> bool {
    &&& forall|i: int|
        0 <= i < selections.len() ==> !precedes(max_point, (#[trigger] selections[i]).start)
    &&& forall|i: int, j: int|
        0 <= i < j < selections.len() ==> !precedes(
            (#[trigger] selections[j]).start,
            (#[trigger] selections[i]).start,
        ) && !precedes(selections[j].start, selections[i].end)
}

/// A selection as it is to be drawn: from its earlier end to its later one, with the
/// user where it is that of another replica.
pub open spec fn drawn(user_id: Option<ReplicaId>, selection: Range<Point>) -> SelectionProps {
    let reversed = precedes(selection.end, selection.start);
    SelectionProps {
        user_id,
        start: if reversed {
            selection.end
        } else {
            selection.start
        },
        end: if reversed {
            selection.start
        } else {
            selection.end
        },
        reversed,
        remote: user_id is Some,
    }
}

/// Those of some selections that are seen in a range of the text, as they are drawn.
pub open spec fn drawn_set(
    user_id: Option<ReplicaId>,
    selections: Seq<Range<Point>>,
    range: Range<Point>,
) -> Seq<SelectionProps> {
    selections.filter(meets(range)).map_values(
        |selection: Range<Point>| drawn(user_id, selection),
    )
}

/// What is to be drawn of the selections of each of several replicas, set by set.
pub open spec fn drawn_replicas(remote: Seq<RemoteModel>, range: Range<Point>) -> Seq<
    Seq<SelectionProps>,
> {
    Seq::new(
        remote.len(),
        |r: int|
            Seq::new(
                remote[r].sets.len(),
                |s: int| drawn_set(Some(remote[r].replica_id), remote[r].sets[s], range),
            ).flatten(),
    )
}

/// What is to be drawn of each of the selection sets of this replica, in an order.
pub open spec fn drawn_locally(
    local: Map<SelectionSetId, Seq<Range<Point>>>,
    order: Seq<SelectionSetId>,
    range: Range<Point>,
) -> Seq<Seq<SelectionProps>> {
    Seq::new(order.len(), |i: int| drawn_set(None, local[order[i]], range))
}

/// Whether numbers are those of all sets, each once.
pub open spec fn lists_sets(
    order: Seq<SelectionSetId>,
    local: Map<SelectionSetId, Seq<Range<Point>>>,
) -> bool {
    &&& order.no_duplicates()
    &&& forall|id: SelectionSetId| #[trigger] order.contains(id) <==> local.contains_key(id)
}

/// Whether all selections in a buffer are orderly.
pub open spec fn all_orderly(buffer: BufferModel) -> bool {
    let max_point = text::end_point(buffer.text);
    &&& forall|r: int, s: int|
        0 <= r < buffer.remote.len() && 0 <= s < buffer.remote[r].sets.len() ==> is_orderly(
            #[trigger] buffer.remote[r].sets[s],
            max_point,
        )
    &&& forall|id: SelectionSetId| #[trigger]
        buffer.local.contains_key(id) ==> is_orderly(buffer.local[id], max_point)
}

/// Of orderly selections, a range is drawn with just those that are seen in it.
pub proof fn law_seen_selections_are_drawn(
    selections: Seq<Range<Point>>,
    range: Range<Point>,
    max_point: Point,
)
    requires
        !precedes(range.end, range.start),
        is_orderly(selections, max_point),
    ensures
        queried(selections, range, max_point) == selections.filter(meets(range)),
{
    let keep = meets(range);
    let start = query_start(selections, range.start);
    let end = query_end(selections, range.end, max_point);
    lemma_query(selections, range, max_point);
    assert forall|i: int| 0 <= i < selections.len() implies (keep(#[trigger] selections[i])
        <==> start <= i < end) by {
        law_query(selections, range, max_point, i);
    }
    sequences::lemma_filter_is_stretch(selections, keep, start, end);
}

proof fn lemma_sets_drawn(
    user_id: ReplicaId,
    sets: Seq<Seq<Range<Point>>>,
    range: Range<Point>,
    max_point: Point,
)
    requires
        !precedes(range.end, range.start),
        forall|s: int| 0 <= s < sets.len() ==> is_orderly(#[trigger] sets[s], max_point),
    ensures
        shown_sets(user_id, sets, range, max_point) == Seq::new(
            sets.len(),
            |s: int| drawn_set(Some(user_id), sets[s], range),
        ).flatten(),
    decreases sets.len(),
{
    let each = Seq::new(sets.len(), |s: int| drawn_set(Some(user_id), sets[s], range));
    if sets.len() > 0 {
        let fewer = sets.drop_last();
        let before = Seq::new(fewer.len(), |s: int| drawn_set(Some(user_id), fewer[s], range));
        assert forall|s: int| 0 <= s < fewer.len() implies is_orderly(
            #[trigger] fewer[s],
            max_point,
        ) by {
            assert(fewer[s] == sets[s]);
        }
        lemma_sets_drawn(user_id, fewer, range, max_point);
        assert(is_orderly(sets[sets.len() - 1], max_point));
        law_seen_selections_are_drawn(sets.last(), range, max_point);
        assert(queried(sets.last(), range, max_point).map_values(
            |selection: Range<Point>| remote_props(user_id, selection),
        ) =~= each.last());
        assert(each =~= before.push(each.last()));
        before.lemma_flatten_push(each.last());
    } else {
        assert(each.flatten() =~= Seq::empty());
    }
}

/// What is drawn of the selections of other replicas is, replica by replica and set by
/// set, each selection that is seen.
pub proof fn law_selections_of_all_replicas_are_drawn(
    remote: Seq<RemoteModel>,
    range: Range<Point>,
    max_point: Point,
)
    requires
        !precedes(range.end, range.start),
        forall|r: int, s: int|
            0 <= r < remote.len() && 0 <= s < remote[r].sets.len() ==> is_orderly(
                #[trigger] remote[r].sets[s],
                max_point,
            ),
    ensures
        shown_remote(remote, range, max_point) == drawn_replicas(remote, range).flatten(),
    decreases remote.len(),
{
    let each = drawn_replicas(remote, range);
    if remote.len() > 0 {
        let fewer = remote.drop_last();
        let before = drawn_replicas(fewer, range);
        let last = remote.last();
        assert forall|r: int, s: int|
            0 <= r < fewer.len() && 0 <= s < fewer[r].sets.len() implies is_orderly(
            #[trigger] fewer[r].sets[s],
            max_point,
        ) by {
            assert(fewer[r] == remote[r]);
            assert(is_orderly(remote[r].sets[s], max_point));
        }
        law_selections_of_all_replicas_are_drawn(fewer, range, max_point);
        assert forall|s: int| 0 <= s < last.sets.len() implies is_orderly(
            #[trigger] last.sets[s],
            max_point,
        ) by {
            assert(is_orderly(remote[remote.len() - 1].sets[s], max_point));
        }
        lemma_sets_drawn(last.replica_id, last.sets, range, max_point);
        assert(each.last() =~= shown_sets(last.replica_id, last.sets, range, max_point));
        assert forall|r: int| 0 <= r < before.len() implies #[trigger] before[r] == each[r] by {
            assert(fewer[r] == remote[r]);
        }
        assert(each =~= before.push(each.last()));
        before.lemma_flatten_push(each.last());
    } else {
        assert(each.flatten() =~= Seq::empty());
    }
}

proof fn lemma_local_drawn(
    local: Seq<SelectionSet>,
    sets: Map<SelectionSetId, Seq<Range<Point>>>,
    order: Seq<SelectionSetId>,
    range: Range<Point>,
    max_point: Point,
)
    requires
        !precedes(range.end, range.start),
        order.len() == local.len(),
        forall|i: int|
            0 <= i < local.len() ==> order[i] == (#[trigger] local[i]).id && sets[order[i]]
                == local[i].ranges@ && is_orderly(local[i].ranges@, max_point),
    ensures
        shown_local(local, range, max_point) == drawn_locally(sets, order, range).flatten(),
    decreases local.len(),
{
    let each = drawn_locally(sets, order, range);
    if local.len() > 0 {
        let fewer = local.drop_last();
        let fewer_order = order.drop_last();
        let before = drawn_locally(sets, fewer_order, range);
        assert forall|i: int| 0 <= i < fewer.len() implies fewer_order[i] == (
        #[trigger] fewer[i]).id && sets[fewer_order[i]] == fewer[i].ranges@ && is_orderly(
            fewer[i].ranges@,
            max_point,
        ) by {
            assert(fewer[i] == local[i]);
        }
        lemma_local_drawn(fewer, sets, fewer_order, range, max_point);
        assert(is_orderly(local[local.len() - 1].ranges@, max_point));
        law_seen_selections_are_drawn(local.last().ranges@, range, max_point);
        assert(queried(local.last().ranges@, range, max_point).map_values(
            |selection: Range<Point>| local_props(selection),
        ) =~= each.last());
        assert(each =~= before.push(each.last()));
        before.lemma_flatten_push(each.last());
    } else {
        assert(each.flatten() =~= Seq::empty());
    }
}

/// A frame shows, of the selections of all other replicas and then of those of this
/// one, just those that are seen, each once.
pub proof fn law_frame_shows_all_selections(
    buffer: BufferModel,
    range: Range<Point>,
    props: Seq<SelectionProps>,
)
    requires
        !precedes(range.end, range.start),
        all_orderly(buffer),
        shows(buffer, range, props),
    ensures
        exists|order: Seq<SelectionSetId>| #[trigger]
            lists_sets(order, buffer.local) && props == drawn_replicas(
                buffer.remote,
                range,
            ).flatten() + drawn_locally(buffer.local, order, range).flatten(),
{
    let max_point = text::end_point(buffer.text);
    let ranges = choose|ranges: SelectionRanges|
        buffer::set_map(ranges.local@) == buffer.local && buffer::distinct_ids(ranges.local@)
            && buffer::remote_models(ranges.remote@) == buffer.remote && props == #[trigger] shown(
            ranges,
            range,
            max_point,
        );
    let local = ranges.local@;
    let order = local.map_values(|set: SelectionSet| set.id);
    buffer::lemma_set_map(local);
    assert(lists_sets(order, buffer.local)) by {
        assert forall|i: int, j: int|
            0 <= i < order.len() && 0 <= j < order.len() && i != j implies order[i]
            != order[j] by {
            if i < j {
                assert(local[i].id != local[j].id);
            } else {
                assert(local[j].id != local[i].id);
            }
        }
        assert forall|id: SelectionSetId| #[trigger] order.contains(id)
            <==> buffer.local.contains_key(id) by {
            if order.contains(id) {
                let i = choose|i: int| 0 <= i < order.len() && order[i] == id;
                assert(local[i].id == id);
            }
            if buffer.local.contains_key(id) {
                let i = choose|i: int| 0 <= i < local.len() && (#[trigger] local[i]).id == id;
                assert(order[i] == id);
            }
        }
    }
    assert forall|i: int| 0 <= i < local.len() implies order[i] == (#[trigger] local[i]).id
        && buffer.local[order[i]] == local[i].ranges@ && is_orderly(
        local[i].ranges@,
        max_point,
    ) by {
        assert(buffer.local.contains_key(local[i].id));
    }
    lemma_local_drawn(local, buffer.local, order, range, max_point);
    assert forall|r: int, s: int|
        0 <= r < buffer.remote.len() && 0 <= s < buffer.remote[r].sets.len() implies is_orderly(
        #[trigger] buffer.remote[r].sets[s],
        max_point,
    ) by {}
    law_selections_of_all_replicas_are_drawn(buffer.remote, range, max_point);
}

/// A frame shows each selection of each set of each other replica that is seen in it.
pub proof fn law_frame_shows_each_collaborator(
    buffer: BufferModel,
    range: Range<Point>,
    props: Seq<SelectionProps>,
    replica: int,
    set: int,
    index: int,
)
    requires
        !precedes(range.end, range.start),
        all_orderly(buffer),
        shows(buffer, range, props),
        0 <= replica < buffer.remote.len(),
        0 <= set < buffer.remote[replica].sets.len(),
        0 <= index < buffer.remote[replica].sets[set].len(),
        meets(range)(buffer.remote[replica].sets[set][index]),
    ensures
        exists|i: int|
            {
                let selection = buffer.remote[replica].sets[set][index];
                let reversed = precedes(selection.end, selection.start);
                &&& 0 <= i < props.len()
                &&& (#[trigger] props[i]).user_id == Some(buffer.remote[replica].replica_id)
                &&& props[i].remote
                &&& props[i].reversed == reversed
                &&& reversed ==> props[i].start == selection.end && props[i].end
                    == selection.start
                &&& !reversed ==> props[i].start == selection.start && props[i].end
                    == selection.end
            },
{
    law_frame_shows_all_selections(buffer, range, props);
    let order = choose|order: Seq<SelectionSetId>| #[trigger]
        lists_sets(order, buffer.local) && props == drawn_replicas(buffer.remote, range).flatten()
            + drawn_locally(buffer.local, order, range).flatten();
    let remote = buffer.remote[replica];
    let user_id = Some(remote.replica_id);
    let selection = remote.sets[set][index];
    let kept = remote.sets[set].filter(meets(range));
    remote.sets[set].lemma_filter_contains(meets(range), index);
    let place = choose|place: int| 0 <= place < kept.len() && kept[place] == selection;
    let sets = Seq::new(
        remote.sets.len(),
        |s: int| drawn_set(user_id, remote.sets[s], range),
    );
    assert(sets[set][place] == drawn(user_id, selection));
    sequences::lemma_flattened(sets, set, place);
    let replicas = drawn_replicas(buffer.remote, range);
    assert(replicas[replica] =~= sets.flatten());
    let at = choose|at: int|
        0 <= at < sets.flatten().len() && sets.flatten()[at] == drawn(user_id, selection);
    sequences::lemma_flattened(replicas, replica, at);
    let i = choose|i: int|
        0 <= i < replicas.flatten().len() && replicas.flatten()[i] == drawn(user_id, selection);
    assert(props[i] == drawn(user_id, selection));
}

/// A frame shows each selection of this replica that is seen in it.
pub proof fn law_frame_shows_own_selections(
    buffer: BufferModel,
    range: Range<Point>,
    props: Seq<SelectionProps>,
    id: SelectionSetId,
    index: int,
)
    requires
        !precedes(range.end, range.start),
        all_orderly(buffer),
        shows(buffer, range, props),
        buffer.local.contains_key(id),
        0 <= index < buffer.local[id].len(),
        meets(range)(buffer.local[id][index]),
    ensures
        exists|i: int|
            {
                let selection = buffer.local[id][index];
                let reversed = precedes(selection.end, selection.start);
                &&& 0 <= i < props.len()
                &&& (#[trigger] props[i]).user_id is None
                &&& !props[i].remote
                &&& props[i].reversed == reversed
                &&& reversed ==> props[i].start == selection.end && props[i].end
                    == selection.start
                &&& !reversed ==> props[i].start == selection.start && props[i].end
                    == selection.end
            },
{
    law_frame_shows_all_selections(buffer, range, props);
    let order = choose|order: Seq<SelectionSetId>| #[trigger]
        lists_sets(order, buffer.local) && props == drawn_replicas(buffer.remote, range).flatten()
            + drawn_locally(buffer.local, order, range).flatten();
    let selection = buffer.local[id][index];
    let kept = buffer.local[id].filter(meets(range));
    buffer.local[id].lemma_filter_contains(meets(range), index);
    let place = choose|place: int| 0 <= place < kept.len() && kept[place] == selection;
    assert(order.contains(id));
    let set = choose|set: int| 0 <= set < order.len() && order[set] == id;
    let sets = drawn_locally(buffer.local, order, range);
    assert(sets[set][place] == drawn(None, selection));
    sequences::lemma_flattened(sets, set, place);
    let before = drawn_replicas(buffer.remote, range).flatten();
    let i = choose|i: int|
        0 <= i < sets.flatten().len() && sets.flatten()[i] == drawn(None, selection);
    assert(props[before.len() + i] == drawn(None, selection));
}

/// A sum.
pub open spec fn total(counts: Seq<nat>) -> nat
    decreases counts.len(),
{
    if counts.len() == 0 {
        0
    } else {
        total(counts.drop_last()) + counts.last()
    }
}

/// How many selections of a replica are drawn with a range, over all its sets.
pub open spec fn count_drawn(remote: RemoteModel, range: Range<Point>, max_point: Point) -> nat {
    total(
        Seq::new(remote.sets.len(), |s: int| queried(remote.sets[s], range, max_point).len()),
    )
}

proof fn lemma_shown_sets(
    user_id: ReplicaId,
    sets: Seq<Seq<Range<Point>>>,
    range: Range<Point>,
    max_point: Point,
)
    ensures
        shown_sets(user_id, sets, range, max_point).len() == total(
            Seq::new(sets.len(), |s: int| queried(sets[s], range, max_point).len()),
        ),
        forall|i: int|
            0 <= i < shown_sets(user_id, sets, range, max_point).len() ==> (#[trigger] shown_sets(
                user_id,
                sets,
                range,
                max_point,
            )[i]).remote,
        forall|s: int, k: int|
            0 <= s < sets.len() && 0 <= k < queried(sets[s], range, max_point).len()
                ==> shown_sets(user_id, sets, range, max_point).contains(
                drawn(Some(user_id), #[trigger] queried(sets[s], range, max_point)[k]),
            ),
    decreases sets.len(),
{
    let all = shown_sets(user_id, sets, range, max_point);
    let counts = Seq::new(sets.len(), |s: int| queried(sets[s], range, max_point).len());
    if sets.len() > 0 {
        let fewer = sets.drop_last();
        let before = shown_sets(user_id, fewer, range, max_point);
        let last = queried(sets.last(), range, max_point);
        lemma_shown_sets(user_id, fewer, range, max_point);
        assert(counts.drop_last() =~= Seq::new(
            fewer.len(),
            |s: int| queried(fewer[s], range, max_point).len(),
        ));
        assert forall|s: int, k: int|
            0 <= s < sets.len() && 0 <= k < queried(sets[s], range, max_point).len() implies
            all.contains(
            drawn(Some(user_id), #[trigger] queried(sets[s], range, max_point)[k]),
        ) by {
            let wanted = drawn(Some(user_id), queried(sets[s], range, max_point)[k]);
            if s < fewer.len() {
                assert(fewer[s] == sets[s]);
                assert(before.contains(
                    drawn(Some(user_id), queried(fewer[s], range, max_point)[k]),
                ));
                let i = choose|i: int| 0 <= i < before.len() && before[i] == wanted;
                assert(all[i] == wanted);
            } else {
                assert(all[before.len() + k] == remote_props(user_id, last[k]));
                assert(remote_props(user_id, last[k]) == wanted);
            }
        }
    }
}

proof fn lemma_shown_remote(remote: Seq<RemoteModel>, range: Range<Point>, max_point: Point)
    ensures
        shown_remote(remote, range, max_point).len() == total(
            Seq::new(remote.len(), |r: int| count_drawn(remote[r], range, max_point)),
        ),
        forall|i: int|
            0 <= i < shown_remote(remote, range, max_point).len() ==> (#[trigger] shown_remote(
                remote,
                range,
                max_point,
            )[i]).remote,
        forall|r: int, s: int, k: int|
            0 <= r < remote.len() && 0 <= s < remote[r].sets.len() && 0 <= k < queried(
                remote[r].sets[s],
                range,
                max_point,
            ).len() ==> shown_remote(remote, range, max_point).contains(
                drawn(
                    Some(remote[r].replica_id),
                    #[trigger] queried(remote[r].sets[s], range, max_point)[k],
                ),
            ),
    decreases remote.len(),
{
    let all = shown_remote(remote, range, max_point);
    let counts = Seq::new(remote.len(), |r: int| count_drawn(remote[r], range, max_point));
    if remote.len() > 0 {
        let fewer = remote.drop_last();
        let before = shown_remote(fewer, range, max_point);
        let last = remote.last();
        let rest = shown_sets(last.replica_id, last.sets, range, max_point);
        lemma_shown_remote(fewer, range, max_point);
        lemma_shown_sets(last.replica_id, last.sets, range, max_point);
        assert(counts.drop_last() =~= Seq::new(
            fewer.len(),
            |r: int| count_drawn(fewer[r], range, max_point),
        ));
        assert forall|r: int, s: int, k: int|
            0 <= r < remote.len() && 0 <= s < remote[r].sets.len() && 0 <= k < queried(
                remote[r].sets[s],
                range,
                max_point,
            ).len() implies all.contains(
            drawn(
                Some(remote[r].replica_id),
                #[trigger] queried(remote[r].sets[s], range, max_point)[k],
            ),
        ) by {
            let wanted = drawn(
                Some(remote[r].replica_id),
                queried(remote[r].sets[s], range, max_point)[k],
            );
            if r < fewer.len() {
                assert(fewer[r] == remote[r]);
                assert(before.contains(
                    drawn(
                        Some(fewer[r].replica_id),
                        queried(fewer[r].sets[s], range, max_point)[k],
                    ),
                ));
                let i = choose|i: int| 0 <= i < before.len() && before[i] == wanted;
                assert(all[i] == wanted);
            } else {
                assert(rest.contains(
                    drawn(
                        Some(last.replica_id),
                        queried(last.sets[s], range, max_point)[k],
                    ),
                ));
                let i = choose|i: int| 0 <= i < rest.len() && rest[i] == wanted;
                assert(all[before.len() + i] == wanted);
            }
        }
    }
}

proof fn lemma_local_is_local(local: Seq<SelectionSet>, range: Range<Point>, max_point: Point)
    ensures
        forall|i: int|
            0 <= i < shown_local(local, range, max_point).len() ==> !(#[trigger] shown_local(
                local,
                range,
                max_point,
            )[i]).remote,
    decreases local.len(),
{
    if local.len() > 0 {
        lemma_local_is_local(local.drop_last(), range, max_point);
    }
}

/// Whatever order selections are in, a frame shows of each set of each other replica those
/// that are drawn with its range, and as many selections of others as these are together.
pub proof fn law_frame_counts_all_collaborators(
    buffer: BufferModel,
    range: Range<Point>,
    props: Seq<SelectionProps>,
    replica: int,
    set: int,
    index: int,
)
    requires
        shows(buffer, range, props),
    ensures
        ({
            let max_point = text::end_point(buffer.text);
            &&& props.filter(|prop: SelectionProps| prop.remote).len() == total(
                Seq::new(
                    buffer.remote.len(),
                    |r: int| count_drawn(buffer.remote[r], range, max_point),
                ),
            )
            &&& 0 <= replica < buffer.remote.len() && 0 <= set < buffer.remote[replica].sets.len()
                && 0 <= index < queried(
                buffer.remote[replica].sets[set],
                range,
                max_point,
            ).len() ==> props.contains(
                drawn(
                    Some(buffer.remote[replica].replica_id),
                    queried(buffer.remote[replica].sets[set], range, max_point)[index],
                ),
            )
        }),
{
    let max_point = text::end_point(buffer.text);
    let ranges = choose|ranges: SelectionRanges|
        buffer::set_map(ranges.local@) == buffer.local && buffer::distinct_ids(ranges.local@)
            && buffer::remote_models(ranges.remote@) == buffer.remote && props == #[trigger] shown(
            ranges,
            range,
            max_point,
        );
    let remote = shown_remote(buffer.remote, range, max_point);
    let keep = |prop: SelectionProps| prop.remote;
    lemma_shown_remote(buffer.remote, range, max_point);
    lemma_local_is_local(ranges.local@, range, max_point);
    assert forall|i: int| 0 <= i < props.len() implies (keep(#[trigger] props[i]) <==> 0 <= i
        < remote.len()) by {
        if i < remote.len() {
            assert(props[i] == remote[i]);
        } else {
            assert(props[i] == shown_local(ranges.local@, range, max_point)[i - remote.len()]);
        }
    }
    sequences::lemma_filter_is_stretch(props, keep, 0, remote.len() as int);
    if 0 <= replica < buffer.remote.len() && 0 <= set < buffer.remote[replica].sets.len() && 0
        <= index < queried(buffer.remote[replica].sets[set], range, max_point).len() {
        let wanted = drawn(
            Some(buffer.remote[replica].replica_id),
            queried(buffer.remote[replica].sets[set], range, max_point)[index],
        );
        assert(remote.contains(wanted));
        let i = choose|i: int| 0 <= i < remote.len() && remote[i] == wanted;
        assert(props[i] == wanted);
    }
}

/// How many of the selections, from the first on, start before a point.
fn count_leading(selections: &Vec<Range<Point>>, point: Point) -> (count: usize)
    ensures
        count == leading(selections@, 0, point),
        count <= selections@.len(),
{
    let mut count: usize = 0;
    while count < selections.len() && selections[count].start < point
        invariant
            count <= selections@.len(),
            count + leading(selections@, count as int, point) == leading(selections@, 0, point),
        decreases selections@.len() - count,
    {
        count += 1;
    }
    count
}

/// The selections that are drawn with a range of the text.
pub fn query_selections(
    selections: &Vec<Range<Point>>,
    range: &Range<Point>,
    max_point: Point,
) -> (result: Vec<Range<Point>>)
    requires
        !range.end.before(range.start),
    ensures
        result@ == queried(selections@, *range, max_point),
{
    let index = count_leading(selections, range.start);
    let start: usize = if index < selections.len() && selections[index].start == range.start {
        index
    } else if index > 0 && range.start < selections[index - 1].end {
        index - 1
    } else {
        index
    };
    let end: usize = if max_point < range.end {
        selections.len()
    } else {
        count_leading(selections, range.end)
    };
    proof {
        lemma_query(selections@, *range, max_point);
    }
    let mut result: Vec<Range<Point>> = Vec::new();
    let mut i: usize = start;
    while i < end
        invariant
            start <= i <= end <= selections@.len(),
            result@ == selections@.subrange(start as int, i as int),
        decreases end - i,
    {
        result.push(selections[i].start..selections[i].end);
        i += 1;
        assert(result@ =~= selections@.subrange(start as int, i as int));
    }
    result
}

/// Draws the selections of another replica.
fn render_remote(
    remote: &RemoteSelections,
    range: &Range<Point>,
    max_point: Point,
    props: &mut Vec<SelectionProps>,
)
    requires
        !range.end.before(range.start),
    ensures
        final(props)@ == old(props)@ + shown_sets(
            remote.replica_id,
            remote@.sets,
            *range,
            max_point,
        ),
{
    let ghost before = props@;
    let ghost sets = remote@.sets;
    let mut i: usize = 0;
    assert(sets.take(0) =~= Seq::empty());
    assert(props@ =~= before + shown_sets(remote.replica_id, sets.take(0), *range, max_point));
    while i < remote.sets.len()
        invariant
            !range.end.before(range.start),
            i <= remote.sets@.len(),
            sets == remote@.sets,
            props@ == before + shown_sets(
                remote.replica_id,
                sets.take(i as int),
                *range,
                max_point,
            ),
        decreases remote.sets@.len() - i,
    {
        let ghost so_far = props@;
        let selections = query_selections(&remote.sets[i], range, max_point);
        let ghost drawn = selections@.map_values(
            |selection: Range<Point>| remote_props(remote.replica_id, selection),
        );
        let mut k: usize = 0;
        while k < selections.len()
            invariant
                k <= selections@.len(),
                drawn == selections@.map_values(
                    |selection: Range<Point>| remote_props(remote.replica_id, selection),
                ),
                props@ == so_far + drawn.take(k as int),
            decreases selections@.len() - k,
        {
            let mut selection_props = SelectionProps::from(&selections[k]);
            selection_props.set_user_id(remote.replica_id);
            selection_props.set_remote(true);
            props.push(selection_props);
            k += 1;
            assert(props@ =~= so_far + drawn.take(k as int));
        }
        proof {
            assert(drawn.take(k as int) =~= drawn);
            assert(sets.take(i + 1).drop_last() =~= sets.take(i as int));
            assert(sets[i as int] == remote.sets@[i as int]@);
            assert(props@ =~= before + shown_sets(
                remote.replica_id,
                sets.take(i + 1),
                *range,
                max_point,
            ));
        }
        i += 1;
    }
    assert(sets.take(i as int) =~= sets);
}

/// Draws all selections, with the sets of this replica in the order in which they
/// are listed.
pub fn render_ranges(ranges: &SelectionRanges, range: &Range<Point>, max_point: Point) -> (props:
    Vec<SelectionProps>)
    requires
        !range.end.before(range.start),
    ensures
        props@ == shown(*ranges, *range, max_point),
{
    let mut props: Vec<SelectionProps> = Vec::new();
    let ghost models = buffer::remote_models(ranges.remote@);
    let mut i: usize = 0;
    assert(models.take(0) =~= Seq::empty());
    while i < ranges.remote.len()
        invariant
            !range.end.before(range.start),
            i <= ranges.remote@.len(),
            models == buffer::remote_models(ranges.remote@),
            props@ == shown_remote(models.take(i as int), *range, max_point),
        decreases ranges.remote@.len() - i,
    {
        render_remote(&ranges.remote[i], range, max_point, &mut props);
        proof {
            assert(models.take(i + 1).drop_last() =~= models.take(i as int));
            assert(models[i as int] == ranges.remote@[i as int]@);
        }
        i += 1;
    }
    assert(models.take(i as int) =~= models);
    let ghost remote = props@;
    let mut n: usize = 0;
    assert(ranges.local@.take(0) =~= Seq::empty());
    assert(props@ =~= remote + shown_local(ranges.local@.take(0), *range, max_point));
    while n < ranges.local.len()
        invariant
            !range.end.before(range.start),
            n <= ranges.local@.len(),
            props@ == remote + shown_local(ranges.local@.take(n as int), *range, max_point),
        decreases ranges.local@.len() - n,
    {
        let ghost so_far = props@;
        let selections = query_selections(&ranges.local[n].ranges, range, max_point);
        let ghost drawn = selections@.map_values(
            |selection: Range<Point>| local_props(selection),
        );
        let mut k: usize = 0;
        while k < selections.len()
            invariant
                k <= selections@.len(),
                drawn == selections@.map_values(|selection: Range<Point>| local_props(selection)),
                props@ == so_far + drawn.take(k as int),
            decreases selections@.len() - k,
        {
            props.push(SelectionProps::from(&selections[k]));
            k += 1;
            assert(props@ =~= so_far + drawn.take(k as int));
        }
        proof {
            assert(drawn.take(k as int) =~= drawn);
            assert(ranges.local@.take(n + 1).drop_last() =~= ranges.local@.take(n as int));
            assert(props@ =~= remote + shown_local(
                ranges.local@.take(n + 1),
                *range,
                max_point,
            ));
        }
        n += 1;
    }
    assert(ranges.local@.take(n as int) =~= ranges.local@);
    props
}

/// The rows that are drawn from a first row up to an end row. A view without
/// height draws its first row, unless that is the last of the text.
pub open spec fn visible_rows(text: Seq<u16>, first_row: int, end_row: int) -> Seq<Seq<u16>> {
    let rows = text::rows(text);
    if first_row < end_row {
        rows.subrange(
            first_row,
            if end_row < rows.len() {
                end_row
            } else {
                rows.len() as int
            },
        )
    } else if first_row + 1 < rows.len() {
        seq![rows[first_row]]
    } else {
        Seq::empty()
    }
}

/// A frame of some height shows the rows of the text from its first row on, each as it
/// is, as many as fit or as there are.
pub proof fn law_rows_in_sight(text: Seq<u16>, first_row: int, end_row: int, row: int)
    requires
        0 <= first_row < text::rows(text).len(),
        first_row < end_row,
        0 <= row,
    ensures
        row < visible_rows(text, first_row, end_row).len() <==> first_row + row < end_row
            && first_row + row < text::rows(text).len(),
        row < visible_rows(text, first_row, end_row).len() ==> visible_rows(
            text,
            first_row,
            end_row,
        )[row] == text::rows(text)[first_row + row],
{
}

/// A frame without height shows the row that it is at, unless that is the last.
pub proof fn law_frame_without_height(text: Seq<u16>, row: int)
    requires
        0 <= row < text::rows(text).len(),
    ensures
        row < text::rows(text).len() - 1 ==> visible_rows(text, row, row).len() == 1
            && visible_rows(text, row, row)[0] == text::rows(text)[row],
        row == text::rows(text).len() - 1 ==> visible_rows(text, row, row).len() == 0,
{
}

/// Two frames, one right below the other, show what one frame of their common height
/// shows.
pub proof fn law_frames_below_each_other(
    text: Seq<u16>,
    first_row: int,
    middle_row: int,
    end_row: int,
)
    requires
        0 <= first_row < middle_row < end_row,
        middle_row < text::rows(text).len(),
    ensures
        visible_rows(text, first_row, middle_row) + visible_rows(text, middle_row, end_row)
            == visible_rows(text, first_row, end_row),
{
    assert(visible_rows(text, first_row, middle_row) + visible_rows(text, middle_row, end_row)
        =~= visible_rows(text, first_row, end_row));
}

/// The text of each of a list of drawn lines.
pub open spec fn line_texts(lines: Seq<String>) -> Seq<Seq<char>> {
    lines.map_values(|line: String| line@)
}

/// The text of each row.
pub open spec fn row_texts(rows: Seq<Seq<u16>>) -> Seq<Seq<char>> {
    rows.map_values(|row: Seq<u16>| utf16::lossy(row))
}

/// Drawn lines that have the texts of some rows are as many as these, and each has the
/// text of its row.
pub proof fn law_lines_have_the_texts_of_rows(
    lines: Seq<String>,
    rows: Seq<Seq<u16>>,
    index: int,
)
    requires
        line_texts(lines) == row_texts(rows),
        0 <= index < rows.len(),
    ensures
        lines.len() == rows.len(),
        lines[index]@ == utf16::lossy(rows[index]),
{
    assert(line_texts(lines).len() == lines.len());
    assert(line_texts(lines)[index] == row_texts(rows)[index]);
}

/// A stretch of the text that is to be brought into sight sideways, with the rows
/// of its ends.
#[derive(Debug)]
pub struct HorizontalAutoscroll {
    pub start: Point,
    pub start_line: String,
    pub end: Point,
    pub end_line: String,
}

/// What a view shows.
#[derive(Debug)]
pub struct Frame {
    pub first_visible_row: u32,
    pub total_row_count: u32,
    pub lines: Vec<String>,
    pub longest_line: String,
    pub horizontal_autoscroll: Option<HorizontalAutoscroll>,
    pub horizontal_margin: u32,
    pub selections: Vec<SelectionProps>,
}

/// Whether a row can be told for a frame: the text has it, and where it is not
/// beyond the end of the frame, so has the frame.
pub open spec fn can_tell_row(text: Seq<u16>, first_row: int, end_row: int, row: int) -> bool {
    &&& 0 <= row < text::rows(text).len()
    &&& first_row <= row <= end_row ==> row - first_row < visible_rows(
        text,
        first_row,
        end_row,
    ).len()
}

/// The text of a row, from the drawn lines where it is among them.
pub fn tell_row(
    buffer: &Buffer,
    lines: &Vec<String>,
    first_row: u32,
    end_row: u32,
    row: u32,
) -> (line: String)
    requires
        buffer.wf(),
        first_row < text::rows(buffer@.text).len(),
        line_texts(lines@) == row_texts(
            visible_rows(buffer@.text, first_row as int, end_row as int),
        ),
        can_tell_row(buffer@.text, first_row as int, end_row as int, row as int),
    ensures
        line@ == utf16::lossy(text::rows(buffer@.text)[row as int]),
{
    if first_row <= row && row <= end_row {
        let index: usize = (row - first_row) as usize;
        proof {
            let drawn = visible_rows(buffer@.text, first_row as int, end_row as int);
            assert(line_texts(lines@).len() == lines@.len());
            assert(row_texts(drawn).len() == drawn.len());
            assert(line_texts(lines@)[index as int] == lines@[index as int]@);
            assert(row_texts(drawn)[index as int] == utf16::lossy(drawn[index as int]));
        }
        lines[index].clone()
    } else {
        utf16::decode_lossy(&buffer.line(row).unwrap())
    }
}

/// Whether a row can be told for a frame.
pub fn check_row(buffer: &Buffer, first_row: u32, end_row: u32, row: u32) -> (told: bool)
    requires
        buffer.wf(),
        first_row < text::rows(buffer@.text).len(),
        first_row <= end_row,
    ensures
        told == can_tell_row(buffer@.text, first_row as int, end_row as int, row as int),
{
    proof {
        buffer.law_selections_lie_in_text();
        text::lemma_rows_len(buffer@.text);
    }
    let last_row: u32 = buffer.max_point().unwrap().row;
    if row > last_row {
        false
    } else if first_row < end_row {
        row != end_row
    } else {
        row != first_row || first_row < last_row
    }
}

/// Draws the rows from a first row up to an end row.
pub fn visible_lines(buffer: &Buffer, first_row: u32, end_row: u32) -> (lines: Vec<String>)
    requires
        buffer.wf(),
        first_row < text::rows(buffer@.text).len(),
        first_row <= end_row,
    ensures
        line_texts(lines@) == row_texts(
            visible_rows(buffer@.text, first_row as int, end_row as int),
        ),
{
    let ghost all = text::rows(buffer@.text);
    let start = Point::new(first_row, 0);
    let units = buffer.iter_at_point(start).unwrap();
    proof {
        buffer.law_selections_lie_in_text();
        text::lemma_rows_len(buffer@.text);
        text::lemma_rows_of_suffix(buffer@.text, first_row as int);
        assert(text::rows(units@) == all.skip(first_row as int));
        assert(units@.take(0) =~= Seq::empty());
    }
    let mut lines: Vec<String> = Vec::new();
    let mut line: Vec<u16> = Vec::new();
    let mut row: u32 = first_row;
    let mut i: usize = 0;
    let mut done = false;
    while i < units.len() && !done
        invariant
            i <= units@.len(),
            text::rows(units@) == all.skip(first_row as int),
            first_row < all.len() <= u32::MAX,
            first_row <= end_row,
            row == first_row + lines@.len(),
            lines@.len() <= text::rows(units@).len() - 1,
            forall|k: int|
                0 <= k < lines@.len() ==> (#[trigger] lines@[k])@ == utf16::lossy(
                    text::rows(units@)[k],
                ),
            !done ==> {
                &&& text::rows(units@.take(i as int)).len() == lines@.len() + 1
                &&& text::rows(units@.take(i as int)).last() == line@
                &&& lines@.len() > 0 ==> row < end_row
            },
            done ==> lines@.len() > 0 && row >= end_row && (lines@.len() > 1 ==> row == end_row),
        decreases units@.len() - i,
    {
        let unit: u16 = units[i];
        proof {
            let longer = units@.take(i + 1);
            assert(longer.drop_last() =~= units@.take(i as int));
            text::lemma_rows_of_prefix(units@, i + 1);
            if unit == text::NEWLINE {
                assert(text::rows(longer)[lines@.len() as int] == line@);
                assert(text::rows(longer)[lines@.len() as int] == text::rows(
                    units@,
                )[lines@.len() as int]);
            }
        }
        if unit == text::NEWLINE {
            lines.push(utf16::decode_lossy(&line));
            line = Vec::new();
            row += 1;
            if row >= end_row {
                done = true;
            }
        } else {
            line.push(unit);
        }
        i += 1;
    }
    if row < end_row {
        proof {
            assert(units@.take(i as int) =~= units@);
        }
        lines.push(utf16::decode_lossy(&line));
    }
    proof {
        if !done {
            assert(units@.take(i as int) =~= units@);
        }
        let drawn = visible_rows(buffer@.text, first_row as int, end_row as int);
        assert(line_texts(lines@) =~= row_texts(drawn));
    }
    lines
}

} // verus!
