//! Numbered maps, weak sets, cells, matchers and code units.

use std::rc::Rc;

use xray::buffer::SelectionRanges;
use xray::change_observer::{Change, ChangeObserver, TreeChange};
use xray::fuzzy::Matcher;
use xray::movement::word_steps;
use xray::notify_cell::NotifyCell;
use xray::point::Point;
use xray::strings;
use xray::text;
use xray::usize_map::UsizeMap;
use xray::utf16;
use xray::weak_set::WeakSet;

fn units(string: &str) -> Vec<u16> {
    string.encode_utf16().collect()
}

#[test]
fn usize_map_gives_out_numbers_once() {
    let mut map = UsizeMap::new();
    assert_eq!(map.add("a"), 0);
    assert_eq!(map.add("b"), 1);
    assert_eq!(map.get(&1), Some(&"b"));
    assert_eq!(map.remove(&1), Some("b"));
    assert_eq!(map.remove(&1), None);
    assert_eq!(map.get(&1), None);
    assert_eq!(map.add("c"), 2);
    *map.get_mut(&0).unwrap() = "d";
    assert!(map.get_mut(&7).is_none());
    let mut keys = map.keys();
    keys.sort();
    assert_eq!(keys, vec![0, 2]);
    let mut entries = map.iter();
    entries.sort();
    assert_eq!(entries, vec![(0, &"d"), (2, &"c")]);
}

#[test]
fn weak_set_finds_what_is_held() {
    let mut set = WeakSet::new();
    let first = set.insert(1);
    assert_eq!(*first, 1);
    // The set holds no owner of its own.
    assert_eq!(Rc::strong_count(&first), 1);
    let second = set.insert(2);
    let again = set.insert(1);
    // The last member that matches is found.
    let found = set.find(&|member: Rc<i32>| *member == 1).unwrap();
    assert!(Rc::ptr_eq(&found, &again));
    drop(found);
    // A comparison is handed the members themselves.
    let found = set.find(&|member: Rc<i32>| Rc::ptr_eq(&member, &first)).unwrap();
    assert!(Rc::ptr_eq(&found, &first));
    drop(found);
    drop(again);
    let found = set.find(&|member: Rc<i32>| *member == 1).unwrap();
    assert!(Rc::ptr_eq(&found, &first));
    drop(found);
    let weak = Rc::downgrade(&first);
    drop(first);
    assert!(weak.upgrade().is_none());
    assert!(set.find(&|member: Rc<i32>| *member == 1).is_none());
    let found = set.find(&|member: Rc<i32>| *member == 2).unwrap();
    assert!(Rc::ptr_eq(&found, &second));
}

#[test]
fn members_stay_as_long_as_they_are_held() {
    let mut set = WeakSet::new();
    let first = set.insert(1);
    let second = set.insert(2);
    let answers = vec![Some(first.clone()), None];
    let found = set.retain_and_find(&answers, &|member: Rc<i32>| *member > 0);
    assert!(Rc::ptr_eq(&found.unwrap(), &first));
    // The other member was dropped from the set.
    assert!(set.find(&|member: Rc<i32>| Rc::ptr_eq(&member, &second)).is_none());
    let found = set.retain_and_find(&vec![Some(first)], &|member: Rc<i32>| *member == 2);
    assert!(found.is_none());
}

#[test]
fn observers_see_a_value_once() {
    let mut cell = NotifyCell::new(1);
    assert!(!cell.has_observers());
    let first = cell.observe();
    let second = cell.observe();
    assert!(cell.has_observers());
    assert_eq!(cell.poll(first), None);
    cell.set(2);
    cell.set(3);
    assert_eq!(cell.poll(first), Some(&3));
    assert_eq!(cell.poll(first), None);
    assert_eq!(cell.poll(second), Some(&3));
    assert_eq!(*cell.get(), 3);
}

#[test]
fn changes_reach_those_who_observe_them() {
    let mut observer = ChangeObserver::new();
    let changes = observer.updates_changes(1);
    let more = observer.updates_changes(1);
    let other = observer.updates_changes(2);
    let updates = observer.updates(1);
    let tree = observer.observe_tree();
    assert!(observer.poll_changes(1, changes).is_none());
    observer.changed(
        1,
        &vec![Change {
            range: Point::new(0, 0)..Point::new(0, 1),
            code_units: units("xy"),
        }],
        SelectionRanges {
            local: Vec::new(),
            remote: Vec::new(),
        },
    );
    let told = observer.poll_changes(1, changes).unwrap();
    assert_eq!(told.len(), 2);
    match &told[0] {
        TreeChange::Text { range, text } => {
            assert_eq!(*range, Point::new(0, 0)..Point::new(0, 1));
            assert_eq!(*text, units("xy"));
        }
        TreeChange::Selections(_) => panic!("the text comes first"),
    }
    assert!(matches!(told[1], TreeChange::Selections(_)));
    assert!(observer.poll_changes(1, changes).is_none());
    assert!(observer.poll_changes(1, more).is_some());
    assert!(observer.poll_changes(2, other).is_none());
    assert_eq!(observer.poll_tree(tree).unwrap().len(), 2);
    assert!(observer.poll_tree(tree).is_none());
    assert!(observer.poll_updates(1, updates));
    assert!(!observer.poll_updates(1, updates));
}

#[test]
fn matcher_finds_a_query_in_order() {
    let mut matcher = Matcher::new("abc".chars().collect());
    assert!(!matcher.push(&"xaxb".chars().collect()));
    assert!(!matcher.push(&"ab".chars().collect()));
    assert!(matcher.push(&"c/".chars().collect()));
    // What comes behind a match does not undo it.
    assert!(matcher.push(&"zzz".chars().collect()));
    matcher.pop();
    matcher.pop();
    assert!(!matcher.push(&"C".chars().collect()));
    let mut empty = Matcher::new(Vec::new());
    assert!(empty.push(&Vec::new()));
}

#[test]
fn characters_survive_as_code_units() {
    let string = "a\u{FFFF}\u{10000}\u{10FFFF}ä";
    let encoded = utf16::encode(string);
    assert_eq!(encoded, units(string));
    assert_eq!(utf16::decode_lossy(&encoded), string);
    assert_eq!(
        utf16::decode_lossy(&vec![0xDC00, 0x61, 0xD83D]),
        "\u{FFFD}a\u{FFFD}"
    );
}

#[test]
fn rows_make_up_the_text() {
    let text = units("ab\n\ncde");
    assert_eq!(text::row_units(&text, 0), Some(units("ab")));
    assert_eq!(text::row_units(&text, 1), Some(Vec::new()));
    assert_eq!(text::row_units(&text, 2), Some(units("cde")));
    assert_eq!(text::row_units(&text, 3), None);
    assert_eq!(text::row_len(&text, 2), Some(3));
    assert_eq!(text::longest_row(&text), 2);
    assert_eq!(text::last_position(&text), Point::new(2, 3));
    for offset in 0..text.len() + 1 {
        let point = text::point_for_offset(&text, offset);
        assert_eq!(text::offset_for_point(&text, point), offset);
    }
    assert_eq!(text::point_for_offset(&text, 4), Point::new(2, 0));
    assert_eq!(text::offset_for_point(&text, Point::new(0, 9)), 2);
    assert_eq!(text::offset_for_point(&text, Point::new(9, 0)), 7);
}

#[test]
fn words_are_runs_of_one_class() {
    assert_eq!(word_steps(&vec![true, true, false]), 2);
    assert_eq!(word_steps(&vec![false, false, false]), 3);
    assert_eq!(word_steps(&Vec::new()), 1);
}

#[test]
fn numbers_are_written_in_decimal() {
    let mut string = "n".to_string();
    strings::push_decimal(&mut string, 0);
    strings::push_decimal(&mut string, 1907);
    assert_eq!(string, "n01907");
    assert_eq!(strings::joined("a", "b"), "ab");
}
