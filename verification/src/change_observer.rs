//! Who is told when a buffer changes.

use std::collections::HashMap;
use std::ops::Range;

use vstd::prelude::*;

use crate::buffer::{copy_selection_ranges, copy_units, BufferId, SelectionRanges, SelectionsModel};
use crate::notify_cell::NotifyCell;
use crate::point::Point;

verus! {

/// A stretch of a text that was replaced, and the code units that stand there
/// now.
pub struct Change {
    pub range: Range<Point>,
    pub code_units: Vec<u16>,
}

/// What changed in a buffer.
pub enum TreeChange {
    Text { range: Range<Point>, text: Vec<u16> },
    Selections(SelectionRanges),
}

/// What changed in a buffer as a mathematical value.
pub enum TreeChangeModel {
    Text { range: Range<Point>, text: Seq<u16> },
    Selections { selections: SelectionsModel },
}

impl View for TreeChange {
    type V = TreeChangeModel;

    open spec fn view(&self) -> TreeChangeModel {
        match *self {
            TreeChange::Text { range, text } => TreeChangeModel::Text { range, text: text@ },
            TreeChange::Selections(selections) => TreeChangeModel::Selections {
                selections: selections@,
            },
        }
    }
}

/// Each of a list of changes as a mathematical value.
pub open spec fn models(changes: Seq<TreeChange>) -> Seq<TreeChangeModel> {
    changes.map_values(|change: TreeChange| change@)
}

/// What observers are told of changes: each replaced stretch, and then all
/// selections.
pub open spec fn told(changes: Seq<Change>, selections: SelectionsModel) -> Seq<TreeChangeModel> {
    changes.map_values(
        |change: Change|
            TreeChangeModel::Text { range: change.range, text: change.code_units@ },
    ).push(TreeChangeModel::Selections { selections })
}

impl From<&Change> for TreeChange {
    fn from(change: &Change) -> (tree_change: TreeChange)
        ensures
            tree_change@ == (TreeChangeModel::Text {
                range: change.range,
                text: change.code_units@,
            }),
    {
        TreeChange::Text {
            range: change.range.start..change.range.end,
            text: copy_units(&change.code_units, 0, change.code_units.len()),
        }
    }
}

impl vstd::std_specs::convert::FromSpecImpl<&Change> for TreeChange {
    open spec fn obeys_from_spec() -> bool {
        false
    }

    open spec fn from_spec(change: &Change) -> TreeChange {
        arbitrary()
    }
}

/// A copy of a list of changes.
pub fn copy_changes(changes: &Vec<TreeChange>) -> (copy: Vec<TreeChange>)
    ensures
        models(copy@) == models(changes@),
{
    let mut copy: Vec<TreeChange> = Vec::new();
    let mut i: usize = 0;
    while i < changes.len()
        invariant
            i <= changes@.len(),
            models(copy@) == models(changes@).take(i as int),
        decreases changes@.len() - i,
    {
        let ghost before = copy@;
        let change = match &changes[i] {
            TreeChange::Text { range, text } => TreeChange::Text {
                range: range.start..range.end,
                text: copy_units(text, 0, text.len()),
            },
            TreeChange::Selections(selections) => TreeChange::Selections(
                copy_selection_ranges(selections),
            ),
        };
        copy.push(change);
        proof {
            assert(change@ == changes@[i as int]@);
            assert(models(copy@) =~= models(before).push(change@));
            assert(models(copy@) =~= models(changes@).take(i + 1));
        }
        i += 1;
    }
    assert(models(copy@) =~= models(changes@));
    copy
}

/// A cell to observe for each of some buffers.
pub struct ObserverMap<T>(HashMap<BufferId, NotifyCell<T>>);

impl<T> View for ObserverMap<T> {
    type V = Map<BufferId, NotifyCell<T>>;

    closed spec fn view(&self) -> Map<BufferId, NotifyCell<T>> {
        self.0@
    }
}

impl<T> ObserverMap<T> {
    pub fn new() -> (map: Self)
        ensures
            map@ == Map::<BufferId, NotifyCell<T>>::empty(),
    {
        ObserverMap(HashMap::new())
    }

    pub fn get(&self, buffer_id: BufferId) -> (cell: Option<&NotifyCell<T>>)
        ensures
            cell == (if self@.contains_key(buffer_id) {
                Some(&self@[buffer_id])
            } else {
                None
            }),
    {
        broadcast use vstd::std_specs::hash::group_hash_axioms;

        self.0.get(&buffer_id)
    }

    /// The cell of a buffer, to be changed in place. A buffer without one gets one
    /// that nobody observes.
    pub fn get_or_insert(&mut self, buffer_id: BufferId, def: T) -> (cell: &mut NotifyCell<T>)
        ensures
            old(self)@.contains_key(buffer_id) ==> *cell == old(self)@[buffer_id],
            !old(self)@.contains_key(buffer_id) ==> cell.value() == def && cell.unseen()
                == Seq::<bool>::empty(),
            final(self)@ == old(self)@.insert(buffer_id, *final(cell)),
    {
        broadcast use vstd::std_specs::hash::group_hash_axioms;

        self.0.entry(buffer_id).or_insert(NotifyCell::new(def))
    }

    /// Sets the cell of a buffer, where it has one.
    pub fn set(&mut self, buffer_id: BufferId, value: T)
        ensures
            final(self)@.dom() == old(self)@.dom(),
            forall|id: BufferId| #[trigger]
                old(self)@.contains_key(id) && id != buffer_id ==> final(self)@[id]
                    == old(self)@[id],
            old(self)@.contains_key(buffer_id) ==> final(self)@[buffer_id].value() == value
                && final(self)@[buffer_id].unseen() == old(self)@[buffer_id].unseen().map_values(
                |seen: bool| true,
            ),
    {
        broadcast use vstd::std_specs::hash::group_hash_axioms;

        if let Some(mut cell) = self.0.remove(&buffer_id) {
            cell.set(value);
            self.0.insert(buffer_id, cell);
        }
        assert(self@.dom() =~= old(self)@.dom());
    }

    /// Whether an observer of the cell of a buffer has something to see, which it
    /// has then seen.
    pub fn poll(&mut self, buffer_id: BufferId, observer: usize) -> (unseen: bool)
        requires
            old(self)@.contains_key(buffer_id),
            observer < old(self)@[buffer_id].unseen().len(),
        ensures
            unseen == old(self)@[buffer_id].unseen()[observer as int],
            final(self)@.dom() == old(self)@.dom(),
            forall|id: BufferId| #[trigger]
                old(self)@.contains_key(id) && id != buffer_id ==> final(self)@[id]
                    == old(self)@[id],
            final(self)@[buffer_id].value() == old(self)@[buffer_id].value(),
            final(self)@[buffer_id].unseen() == old(self)@[buffer_id].unseen().update(
                observer as int,
                false,
            ),
    {
        broadcast use vstd::std_specs::hash::group_hash_axioms;

        let mut unseen: bool = false;
        if let Some(mut cell) = self.0.remove(&buffer_id) {
            unseen = cell.poll(observer).is_some();
            self.0.insert(buffer_id, cell);
        }
        assert(self@.dom() =~= old(self)@.dom());
        unseen
    }
}

/// What observers of changes were told last, and who of them has yet to see it.
#[verifier::ext_equal]
pub struct Told {
    pub changes: Seq<TreeChangeModel>,
    pub unseen: Seq<bool>,
}

impl Told {
    /// Nothing was told, and nobody is to see it.
    pub open spec fn nothing() -> Told {
        Told { changes: Seq::empty(), unseen: Seq::empty() }
    }

    /// With one more observer, who has nothing to see yet.
    pub open spec fn observed(self) -> Told {
        Told { unseen: self.unseen.push(false), ..self }
    }

    /// Once something is told, to be seen by every observer.
    pub open spec fn telling(self, changes: Seq<TreeChangeModel>) -> Told {
        Told { changes, unseen: self.unseen.map_values(|seen: bool| true) }
    }

    /// Once an observer has seen what was told.
    pub open spec fn seen_by(self, observer: int) -> Told {
        Told { unseen: self.unseen.update(observer, false), ..self }
    }
}

/// What the cell of a list of changes stands for.
spec fn told_by(cell: NotifyCell<Vec<TreeChange>>) -> Told {
    Told { changes: models(cell.value()@), unseen: cell.unseen() }
}

/// Whom a tree tells of changes, as a mathematical value.
#[verifier::ext_equal]
pub struct ChangeObserverModel {
    /// Who observes the tree.
    pub tree: Told,
    /// Who observes the changes of each buffer.
    pub changes: Map<BufferId, Told>,
    /// For each observer of whether a buffer changes, whether it did and the observer
    /// has not seen it.
    pub updates: Map<BufferId, Seq<bool>>,
}

/// What is in a map for a buffer, or something else where there is nothing.
pub open spec fn entry_or<V>(map: Map<BufferId, V>, buffer_id: BufferId, other: V) -> V {
    if map.contains_key(buffer_id) {
        map[buffer_id]
    } else {
        other
    }
}

impl ChangeObserverModel {
    /// Once changes in a buffer are told.
    pub open spec fn telling(
        self,
        buffer_id: BufferId,
        changes: Seq<TreeChangeModel>,
    ) -> ChangeObserverModel {
        ChangeObserverModel {
            tree: self.tree.telling(changes),
            changes: if self.changes.contains_key(buffer_id) {
                self.changes.insert(buffer_id, self.changes[buffer_id].telling(changes))
            } else {
                self.changes
            },
            updates: if self.updates.contains_key(buffer_id) {
                self.updates.insert(
                    buffer_id,
                    self.updates[buffer_id].map_values(|seen: bool| true),
                )
            } else {
                self.updates
            },
        }
    }
}

/// Whom a tree tells of changes: who observes the tree, who observes the changes
/// of a buffer, and who observes that a buffer changed at all.
pub struct ChangeObserver {
    tree: NotifyCell<Vec<TreeChange>>,
    buffers_changes: ObserverMap<Vec<TreeChange>>,
    buffers_updates: ObserverMap<()>,
}

impl View for ChangeObserver {
    type V = ChangeObserverModel;

    closed spec fn view(&self) -> ChangeObserverModel {
        ChangeObserverModel {
            tree: told_by(self.tree),
            changes: self.buffers_changes@.map_values(
                |cell: NotifyCell<Vec<TreeChange>>| told_by(cell),
            ),
            updates: self.buffers_updates@.map_values(|cell: NotifyCell<()>| cell.unseen()),
        }
    }
}

impl ChangeObserver {
    pub fn new() -> (observer: Self)
        ensures
            observer@ == (ChangeObserverModel {
                tree: Told::nothing(),
                changes: Map::empty(),
                updates: Map::empty(),
            }),
    {
        let observer = ChangeObserver {
            tree: NotifyCell::new(Vec::new()),
            buffers_changes: ObserverMap::new(),
            buffers_updates: ObserverMap::new(),
        };
        assert(observer@.tree =~= Told::nothing());
        assert(observer@.changes =~= Map::empty());
        assert(observer@.updates =~= Map::empty());
        observer
    }

    /// Adds an observer of the changes of a buffer.
    pub fn updates_changes(&mut self, buffer_id: BufferId) -> (observer: usize)
        ensures
            observer == entry_or(old(self)@.changes, buffer_id, Told::nothing()).unseen.len(),
            final(self)@ == (ChangeObserverModel {
                changes: old(self)@.changes.insert(
                    buffer_id,
                    entry_or(old(self)@.changes, buffer_id, Told::nothing()).observed(),
                ),
                ..old(self)@
            }),
    {
        let cell = self.buffers_changes.get_or_insert(buffer_id, Vec::new());
        assert(told_by(*cell) =~= entry_or(old(self)@.changes, buffer_id, Told::nothing()));
        let observer = cell.observe();
        assert(self@.changes =~= old(self)@.changes.insert(
            buffer_id,
            entry_or(old(self)@.changes, buffer_id, Told::nothing()).observed(),
        ));
        observer
    }

    /// Adds an observer of whether a buffer changes.
    pub fn updates(&mut self, buffer_id: BufferId) -> (observer: usize)
        ensures
            observer == entry_or(old(self)@.updates, buffer_id, Seq::empty()).len(),
            final(self)@ == (ChangeObserverModel {
                updates: old(self)@.updates.insert(
                    buffer_id,
                    entry_or(old(self)@.updates, buffer_id, Seq::empty()).push(false),
                ),
                ..old(self)@
            }),
    {
        let cell = self.buffers_updates.get_or_insert(buffer_id, ());
        assert(cell.unseen() =~= entry_or(old(self)@.updates, buffer_id, Seq::empty()));
        let observer = cell.observe();
        assert(self@.updates =~= old(self)@.updates.insert(
            buffer_id,
            entry_or(old(self)@.updates, buffer_id, Seq::empty()).push(false),
        ));
        observer
    }

    /// What an observer of the changes of a buffer has to see: what was told last,
    /// where it has not seen it.
    pub fn poll_changes(&mut self, buffer_id: BufferId, observer: usize) -> (changes: Option<
        Vec<TreeChange>,
    >)
        requires
            old(self)@.changes.contains_key(buffer_id),
            observer < old(self)@.changes[buffer_id].unseen.len(),
        ensures
            changes is Some == old(self)@.changes[buffer_id].unseen[observer as int],
            changes matches Some(changes) ==> models(changes@)
                == old(self)@.changes[buffer_id].changes,
            final(self)@ == (ChangeObserverModel {
                changes: old(self)@.changes.insert(
                    buffer_id,
                    old(self)@.changes[buffer_id].seen_by(observer as int),
                ),
                ..old(self)@
            }),
    {
        let unseen = self.buffers_changes.poll(buffer_id, observer);
        assert(self.buffers_changes@.contains_key(buffer_id));
        assert(self@.changes =~= old(self)@.changes.insert(
            buffer_id,
            old(self)@.changes[buffer_id].seen_by(observer as int),
        ));
        match self.buffers_changes.get(buffer_id) {
            Some(cell) if unseen => Some(copy_changes(cell.get())),
            _ => None,
        }
    }

    /// Whether a buffer changed since an observer of it last polled.
    pub fn poll_updates(&mut self, buffer_id: BufferId, observer: usize) -> (updated: bool)
        requires
            old(self)@.updates.contains_key(buffer_id),
            observer < old(self)@.updates[buffer_id].len(),
        ensures
            updated == old(self)@.updates[buffer_id][observer as int],
            final(self)@ == (ChangeObserverModel {
                updates: old(self)@.updates.insert(
                    buffer_id,
                    old(self)@.updates[buffer_id].update(observer as int, false),
                ),
                ..old(self)@
            }),
    {
        let updated = self.buffers_updates.poll(buffer_id, observer);
        assert(self.buffers_updates@.contains_key(buffer_id));
        assert(self@.updates =~= old(self)@.updates.insert(
            buffer_id,
            old(self)@.updates[buffer_id].update(observer as int, false),
        ));
        updated
    }

    /// Adds an observer of the tree.
    pub fn observe_tree(&mut self) -> (observer: usize)
        ensures
            observer == old(self)@.tree.unseen.len(),
            final(self)@ == (ChangeObserverModel { tree: old(self)@.tree.observed(), ..old(self)@ }),
    {
        self.tree.observe()
    }

    /// What an observer of the tree has to see: what was told last, where it has not
    /// seen it.
    pub fn poll_tree(&mut self, observer: usize) -> (changes: Option<Vec<TreeChange>>)
        requires
            observer < old(self)@.tree.unseen.len(),
        ensures
            changes is Some == old(self)@.tree.unseen[observer as int],
            changes matches Some(changes) ==> models(changes@) == old(self)@.tree.changes,
            final(self)@ == (ChangeObserverModel {
                tree: old(self)@.tree.seen_by(observer as int),
                ..old(self)@
            }),
    {
        match self.tree.poll(observer) {
            Some(changes) => Some(copy_changes(changes)),
            None => None,
        }
    }

    /// Tells of changes in a buffer: who observes the tree or the changes of that
    /// buffer gets to see them, and who observes the buffer that there are some.
    pub fn changed(
        &mut self,
        buffer_id: BufferId,
        changes: &Vec<Change>,
        selections: SelectionRanges,
    )
        ensures
            final(self)@ == old(self)@.telling(buffer_id, told(changes@, selections@)),
    {
        let ghost all = told(changes@, selections@);
        let mut tree_changes: Vec<TreeChange> = Vec::new();
        let mut i: usize = 0;
        while i < changes.len()
            invariant
                i <= changes@.len(),
                all == told(changes@, selections@),
                models(tree_changes@) == all.take(i as int),
            decreases changes@.len() - i,
        {
            let ghost before = tree_changes@;
            let change = TreeChange::from(&changes[i]);
            tree_changes.push(change);
            proof {
                assert(models(tree_changes@) =~= models(before).push(change@));
                assert(models(tree_changes@) =~= all.take(i + 1));
            }
            i += 1;
        }
        let ghost before = tree_changes@;
        tree_changes.push(TreeChange::Selections(selections));
        proof {
            assert(models(tree_changes@) =~= models(before).push(
                TreeChangeModel::Selections { selections: selections@ },
            ));
            assert(models(tree_changes@) =~= all);
        }
        self.tree.set(copy_changes(&tree_changes));
        self.buffers_changes.set(buffer_id, tree_changes);
        self.buffers_updates.set(buffer_id, ());
        proof {
            let after = old(self)@.telling(buffer_id, all);
            assert(self@.tree =~= after.tree);
            assert forall|id: BufferId| old(self)@.changes.contains_key(id) implies #[trigger]
                self@.changes[id] == after.changes[id] by {
                assert(old(self).buffers_changes@.contains_key(id));
                assert(self.buffers_changes@.dom().contains(id));
            }
            assert(self@.changes =~= after.changes);
            assert forall|id: BufferId| old(self)@.updates.contains_key(id) implies #[trigger]
                self@.updates[id] == after.updates[id] by {
                assert(old(self).buffers_updates@.contains_key(id));
                assert(self.buffers_updates@.dom().contains(id));
            }
            assert(self@.updates =~= after.updates);
        }
    }
}

/// Whether what was told is each replaced stretch, in order, and then all selections.
pub open spec fn tells(
    changes: Seq<Change>,
    selections: SelectionsModel,
    told: Seq<TreeChangeModel>,
) -> bool {
    &&& told.len() == changes.len() + 1
    &&& forall|i: int|
        0 <= i < changes.len() ==> #[trigger] told[i] == (TreeChangeModel::Text {
            range: changes[i].range,
            text: changes[i].code_units@,
        })
    &&& told[changes.len() as int] == (TreeChangeModel::Selections { selections })
}

/// When a buffer changes, all who observe the tree or the changes of that buffer have to
/// see what changed, and all who observe the buffer that it did. Nobody comes or goes, and
/// nobody is told who observes another buffer.
pub proof fn law_changes_are_told(
    observer: ChangeObserverModel,
    buffer_id: BufferId,
    changes: Seq<Change>,
    selections: SelectionsModel,
    other: BufferId,
)
    requires
        other != buffer_id,
    ensures
        ({
            let after = observer.telling(buffer_id, told(changes, selections));
            &&& tells(changes, selections, after.tree.changes)
            &&& after.tree.unseen.len() == observer.tree.unseen.len()
            &&& forall|i: int| 0 <= i < after.tree.unseen.len() ==> #[trigger] after.tree.unseen[i]
            &&& after.changes.dom() == observer.changes.dom()
            &&& observer.changes.contains_key(buffer_id) ==> {
                let seen = after.changes[buffer_id];
                &&& tells(changes, selections, seen.changes)
                &&& seen.unseen.len() == observer.changes[buffer_id].unseen.len()
                &&& forall|i: int| 0 <= i < seen.unseen.len() ==> #[trigger] seen.unseen[i]
            }
            &&& after.changes[other] == observer.changes[other]
            &&& after.updates.dom() == observer.updates.dom()
            &&& observer.updates.contains_key(buffer_id) ==> {
                let updates = after.updates[buffer_id];
                &&& updates.len() == observer.updates[buffer_id].len()
                &&& forall|i: int| 0 <= i < updates.len() ==> #[trigger] updates[i]
            }
            &&& after.updates[other] == observer.updates[other]
        }),
{
    let after = observer.telling(buffer_id, told(changes, selections));
    assert(after.changes.dom() =~= observer.changes.dom());
    assert(after.updates.dom() =~= observer.updates.dom());
}

/// What was told is seen by an observer once, and is still to be seen by the others; who
/// joins has nothing to see yet.
pub proof fn law_told_is_seen_once(told: Told, observer: int, other: int)
    requires
        0 <= observer < told.unseen.len(),
        0 <= other < told.unseen.len(),
        other != observer,
    ensures
        !told.seen_by(observer).unseen[observer],
        told.seen_by(observer).unseen[other] == told.unseen[other],
        told.seen_by(observer).changes == told.changes,
        told.seen_by(observer).unseen.len() == told.unseen.len(),
        told.observed().changes == told.changes,
        told.observed().unseen.len() == told.unseen.len() + 1,
        !told.observed().unseen[told.unseen.len() as int],
        told.observed().unseen[other] == told.unseen[other],
        Told::nothing().changes.len() == 0,
        Told::nothing().unseen.len() == 0,
{
}

/// What is there for a buffer is taken, and something else only where nothing is.
pub proof fn law_entry_or<V>(map: Map<BufferId, V>, buffer_id: BufferId, other: V)
    ensures
        map.contains_key(buffer_id) ==> entry_or(map, buffer_id, other) == map[buffer_id],
        !map.contains_key(buffer_id) ==> entry_or(map, buffer_id, other) == other,
{
}

/// A change as a mathematical value says all that the change does, and changes of a list
/// keep their places.
pub proof fn law_change_as_value(changes: Seq<TreeChange>, index: int)
    requires
        0 <= index < changes.len(),
    ensures
        models(changes).len() == changes.len(),
        changes[index] matches TreeChange::Text { range, text } ==> models(changes)[index]
            == (TreeChangeModel::Text { range, text: text@ }),
        changes[index] matches TreeChange::Selections(selections) ==> models(changes)[index]
            == (TreeChangeModel::Selections { selections: selections@ }),
{
}

} // verus!
