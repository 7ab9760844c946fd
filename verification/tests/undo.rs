//! Undoing and redoing changes.

use automerge_backend::clock::Clock;
use automerge_backend::diff::{Conflict, Diff, DiffAction, ElementValue, MapType};
use automerge_backend::error::AutomergeError;
use automerge_backend::ids::{ActorID, ElementID, Key, ObjectID};
use automerge_backend::op_set::OpSet;
use automerge_backend::protocol::{Change, DataType, Operation, PrimitiveValue};

fn actor(name: &str) -> ActorID {
    ActorID(name.to_string())
}

fn key(name: &str) -> Key {
    Key(name.to_string())
}

fn put(name: &str, n: i64) -> Operation {
    Operation::SetValue {
        object_id: ObjectID::Root,
        key: key(name),
        value: PrimitiveValue::Number(n),
        datatype: None,
    }
}

fn count(name: &str, n: i64) -> Operation {
    Operation::SetValue {
        object_id: ObjectID::Root,
        key: key(name),
        value: PrimitiveValue::Number(n),
        datatype: Some(DataType::Counter),
    }
}

fn raise(name: &str, by: i64) -> Operation {
    Operation::Increment { object_id: ObjectID::Root, key: key(name), value: by }
}

fn delete(name: &str) -> Operation {
    Operation::Delete { object_id: ObjectID::Root, key: key(name) }
}

fn change(name: &str, seq: u32, deps: &Clock, operations: Vec<Operation>) -> Change {
    Change {
        actor_id: actor(name),
        seq,
        message: Some("message".to_string()),
        dependencies: deps.clone(),
        operations,
    }
}

fn shows(name: &str, n: i64, datatype: Option<DataType>, conflicts: Vec<Conflict>) -> Diff {
    Diff {
        action: DiffAction::SetMapKey(
            ObjectID::Root,
            MapType::PlainMap,
            key(name),
            ElementValue::Primitive(PrimitiveValue::Number(n)),
            datatype,
        ),
        conflicts,
    }
}

fn removed(name: &str) -> Diff {
    Diff {
        action: DiffAction::RemoveMapKey(ObjectID::Root, MapType::PlainMap, key(name)),
        conflicts: vec![],
    }
}

#[test]
fn nothing_to_undo_is_an_error() {
    let mut m = OpSet::init();
    let before = m.clone();
    let r = m.do_undo(actor("a"), 1, None, Clock::empty());
    assert_eq!(r, Err(AutomergeError::InvalidChange("No undo ops to execute".to_string())));
    assert!(m == before);
}

#[test]
fn nothing_to_redo_is_an_error() {
    let mut m = OpSet::init();
    let before = m.clone();
    let r = m.do_redo(actor("a"), 1, None, Clock::empty());
    assert_eq!(r, Err(AutomergeError::InvalidChange("no redo ops".to_string())));
    assert!(m == before);
}

#[test]
fn undo_takes_a_new_field_away() {
    let mut m = OpSet::init();
    m.apply_change(change("a", 1, &Clock::empty(), vec![put("x", 1)]), true).unwrap();
    assert!(m.can_undo());
    assert_eq!(m.undo_stack, vec![vec![delete("x")]]);
    let deps = m.clock.clone();
    assert_eq!(m.do_undo(actor("a"), 2, None, deps), Ok(vec![removed("x")]));
    assert!(!m.can_undo());
    assert!(m.can_redo());
    assert_eq!(m.redo_stack, vec![vec![put("x", 1)]]);
    assert!(m.object_store.generate_diffs().is_empty());
}

#[test]
fn undo_brings_the_value_before_back_and_redo_the_one_after() {
    let mut m = OpSet::init();
    m.apply_change(change("a", 1, &Clock::empty(), vec![put("x", 1)]), false).unwrap();
    m.apply_change(change("a", 2, &Clock::empty(), vec![put("x", 2)]), true).unwrap();
    assert_eq!(m.undo_stack, vec![vec![put("x", 1)]]);
    let deps = m.clock.clone();
    let undone = m.do_undo(actor("a"), 3, None, deps);
    assert_eq!(undone, Ok(vec![shows("x", 1, None, vec![])]));
    let deps = m.clock.clone();
    let redone = m.do_redo(actor("a"), 4, None, deps);
    assert_eq!(redone, Ok(vec![shows("x", 2, None, vec![])]));
    assert!(m.can_undo());
    assert!(!m.can_redo());
    // The same change can be undone again.
    let deps = m.clock.clone();
    let again = m.do_undo(actor("a"), 5, None, deps);
    assert_eq!(again, Ok(vec![shows("x", 1, None, vec![])]));
}

#[test]
fn redo_of_a_deletion_deletes_again() {
    let mut m = OpSet::init();
    m.apply_change(change("a", 1, &Clock::empty(), vec![put("x", 1)]), false).unwrap();
    m.apply_change(change("a", 2, &Clock::empty(), vec![delete("x")]), true).unwrap();
    let deps = m.clock.clone();
    assert_eq!(
        m.do_undo(actor("a"), 3, None, deps),
        Ok(vec![shows("x", 1, None, vec![])])
    );
    assert_eq!(m.redo_stack, vec![vec![delete("x")]]);
    let deps = m.clock.clone();
    assert_eq!(m.do_redo(actor("a"), 4, None, deps), Ok(vec![removed("x")]));
}

#[test]
fn undo_of_an_increment_takes_the_counter_down() {
    let mut m = OpSet::init();
    m.apply_change(change("a", 1, &Clock::empty(), vec![count("n", 10)]), false).unwrap();
    let up = change("a", 2, &Clock::empty(), vec![raise("n", 3), raise("n", 4)]);
    let counter = Some(DataType::Counter);
    assert_eq!(
        m.apply_change(up, true),
        Ok(vec![shows("n", 13, counter, vec![]), shows("n", 17, counter, vec![])])
    );
    assert_eq!(m.undo_stack, vec![vec![raise("n", -3), raise("n", -4)]]);
    let deps = m.clock.clone();
    assert_eq!(
        m.do_undo(actor("a"), 3, None, deps),
        Ok(vec![shows("n", 14, counter, vec![]), shows("n", 10, counter, vec![])])
    );
    assert_eq!(m.redo_stack, vec![vec![raise("n", 3), raise("n", 4)]]);
    let deps = m.clock.clone();
    assert_eq!(
        m.do_redo(actor("a"), 4, None, deps),
        Ok(vec![shows("n", 13, counter, vec![]), shows("n", 17, counter, vec![])])
    );
}

#[test]
fn counters_wrap_around() {
    let mut m = OpSet::init();
    m.apply_change(change("a", 1, &Clock::empty(), vec![count("n", i64::MAX)]), false).unwrap();
    m.apply_change(change("a", 2, &Clock::empty(), vec![raise("n", 1)]), true).unwrap();
    let counter = Some(DataType::Counter);
    assert_eq!(m.object_store.generate_diffs(), vec![shows("n", i64::MIN, counter, vec![])]);
    let deps = m.clock.clone();
    m.do_undo(actor("a"), 3, None, deps).unwrap();
    assert_eq!(m.object_store.generate_diffs(), vec![shows("n", i64::MAX, counter, vec![])]);
}

#[test]
fn increment_leaves_other_values_alone() {
    let mut m = OpSet::init();
    m.apply_change(change("a", 1, &Clock::empty(), vec![put("n", 10)]), false).unwrap();
    let up = change("a", 2, &Clock::empty(), vec![raise("n", 3)]);
    assert_eq!(m.apply_change(up, false), Ok(vec![shows("n", 10, None, vec![])]));
}

#[test]
fn increment_leaves_concurrent_counters_alone() {
    let mut m = OpSet::init();
    m.apply_change(change("a", 1, &Clock::empty(), vec![count("n", 1)]), false).unwrap();
    let seen_one = m.clock.clone();
    m.apply_change(change("b", 1, &Clock::empty(), vec![count("n", 5)]), false).unwrap();
    let up = change("c", 1, &seen_one, vec![raise("n", 10)]);
    let counter = Some(DataType::Counter);
    let loser = Conflict {
        actor: actor("a"),
        value: ElementValue::Primitive(PrimitiveValue::Number(11)),
        datatype: counter,
    };
    assert_eq!(m.apply_change(up, false), Ok(vec![shows("n", 5, counter, vec![loser])]));
}

#[test]
fn undo_brings_all_values_of_a_conflict_back() {
    let mut m = OpSet::init();
    m.apply_change(change("a", 1, &Clock::empty(), vec![put("x", 1)]), false).unwrap();
    m.apply_change(change("b", 1, &Clock::empty(), vec![put("x", 2)]), false).unwrap();
    let deps = m.clock.clone();
    m.apply_change(change("c", 1, &deps, vec![put("x", 3)]), true).unwrap();
    assert_eq!(m.undo_stack, vec![vec![put("x", 2), put("x", 1)]]);
    let deps = m.clock.clone();
    m.do_undo(actor("c"), 2, None, deps).unwrap();
    let loser = Conflict {
        actor: actor("c"),
        value: ElementValue::Primitive(PrimitiveValue::Number(2)),
        datatype: None,
    };
    assert_eq!(m.object_store.generate_diffs(), vec![shows("x", 1, None, vec![loser])]);
    // The value that was undone is noted once for each value that came back.
    assert_eq!(m.redo_stack, vec![vec![put("x", 3), put("x", 3)]]);
    let deps = m.clock.clone();
    m.do_redo(actor("c"), 3, None, deps).unwrap();
    let twice = Conflict {
        actor: actor("c"),
        value: ElementValue::Primitive(PrimitiveValue::Number(3)),
        datatype: None,
    };
    assert_eq!(m.object_store.generate_diffs(), vec![shows("x", 3, None, vec![twice])]);
}

#[test]
fn what_is_done_to_a_new_object_needs_no_undo() {
    let mut m = OpSet::init();
    let list = ObjectID::ID("list".to_string());
    let ops = vec![
        Operation::MakeList { object_id: list.clone() },
        Operation::Insert { list_id: list.clone(), key: ElementID::Head, elem: 1 },
        Operation::SetValue {
            object_id: list.clone(),
            key: key("a:1"),
            value: PrimitiveValue::Boolean(true),
            datatype: None,
        },
        Operation::Link { object_id: ObjectID::Root, key: key("l"), value: list.clone() },
    ];
    m.apply_change(change("a", 1, &Clock::empty(), ops), true).unwrap();
    assert_eq!(m.undo_stack, vec![vec![delete("l")]]);
    let deps = m.clock.clone();
    assert_eq!(m.do_undo(actor("a"), 2, None, deps), Ok(vec![removed("l")]));
    let link = Operation::Link { object_id: ObjectID::Root, key: key("l"), value: list.clone() };
    assert_eq!(m.redo_stack, vec![vec![link]]);
    let deps = m.clock.clone();
    let back = Diff {
        action: DiffAction::SetMapKey(
            ObjectID::Root,
            MapType::PlainMap,
            key("l"),
            ElementValue::Link(list),
            None,
        ),
        conflicts: vec![],
    };
    assert_eq!(m.do_redo(actor("a"), 3, None, deps), Ok(vec![back]));
}

#[test]
fn new_change_after_an_undo_takes_its_place() {
    let mut m = OpSet::init();
    m.apply_change(change("a", 1, &Clock::empty(), vec![put("x", 1)]), true).unwrap();
    m.apply_change(change("a", 2, &Clock::empty(), vec![put("x", 2)]), true).unwrap();
    assert_eq!(m.undo_stack, vec![vec![delete("x")], vec![put("x", 1)]]);
    let deps = m.clock.clone();
    m.do_undo(actor("a"), 3, None, deps).unwrap();
    m.apply_change(change("a", 4, &Clock::empty(), vec![put("y", 4)]), true).unwrap();
    assert_eq!(m.undo_stack, vec![vec![delete("x")], vec![delete("y")]]);
    assert!(m.can_undo());
}

#[test]
fn one_undo_after_the_other() {
    let mut m = OpSet::init();
    m.apply_change(change("a", 1, &Clock::empty(), vec![put("x", 1)]), true).unwrap();
    m.apply_change(change("a", 2, &Clock::empty(), vec![put("x", 2)]), true).unwrap();
    let deps = m.clock.clone();
    let one = m.do_undo(actor("a"), 3, None, deps);
    assert_eq!(one, Ok(vec![shows("x", 1, None, vec![])]));
    assert!(m.can_undo());
    let deps = m.clock.clone();
    let two = m.do_undo(actor("a"), 4, None, deps);
    assert_eq!(two, Ok(vec![removed("x")]));
    assert!(!m.can_undo());
    let deps = m.clock.clone();
    let three = m.do_redo(actor("a"), 5, None, deps);
    assert_eq!(three, Ok(vec![shows("x", 1, None, vec![])]));
    let deps = m.clock.clone();
    let four = m.do_redo(actor("a"), 6, None, deps);
    assert_eq!(four, Ok(vec![shows("x", 2, None, vec![])]));
}

#[test]
fn changes_that_are_not_undoable_are_passed_over() {
    let mut m = OpSet::init();
    m.apply_change(change("a", 1, &Clock::empty(), vec![put("x", 1)]), true).unwrap();
    m.apply_change(change("b", 1, &m.clock.clone(), vec![put("y", 2)]), false).unwrap();
    let deps = m.clock.clone();
    assert_eq!(m.do_undo(actor("a"), 2, None, deps), Ok(vec![removed("x")]));
    assert_eq!(m.object_store.generate_diffs(), vec![shows("y", 2, None, vec![])]);
}

#[test]
fn redo_after_a_new_change_leaves_no_room_for_another() {
    let mut m = OpSet::init();
    m.apply_change(change("a", 1, &Clock::empty(), vec![put("x", 1)]), true).unwrap();
    let deps = m.clock.clone();
    m.do_undo(actor("a"), 2, None, deps).unwrap();
    m.apply_change(change("a", 3, &Clock::empty(), vec![put("y", 1)]), true).unwrap();
    assert!(m.can_note_undo());
    let deps = m.clock.clone();
    m.do_redo(actor("a"), 4, None, deps).unwrap();
    assert!(!m.can_note_undo());
    assert!(m.can_undo());
    let deps = m.clock.clone();
    let r = m.do_undo(actor("a"), 5, None, deps);
    assert_eq!(r, Err(AutomergeError::InvalidChange("No undo ops to execute".to_string())));
}

#[test]
fn undo_and_redo_work_without_dependencies() {
    let mut m = OpSet::init();
    m.apply_change(change("a", 1, &Clock::empty(), vec![put("x", 1)]), false).unwrap();
    m.apply_change(change("a", 2, &Clock::empty(), vec![put("x", 2)]), true).unwrap();
    let undone = m.do_undo(actor("a"), 3, None, Clock::empty());
    assert_eq!(undone, Ok(vec![shows("x", 1, None, vec![])]));
    assert!(!m.can_undo());
    let redone = m.do_redo(actor("a"), 4, None, Clock::empty());
    assert_eq!(redone, Ok(vec![shows("x", 2, None, vec![])]));
    assert!(m.can_undo());
    assert!(!m.can_redo());
}

#[test]
fn undo_of_a_new_field_without_dependencies_takes_it_away() {
    let mut m = OpSet::init();
    m.apply_change(change("a", 1, &Clock::empty(), vec![put("x", 1)]), true).unwrap();
    assert_eq!(m.do_undo(actor("a"), 2, None, Clock::empty()), Ok(vec![removed("x")]));
    assert!(m.object_store.generate_diffs().is_empty());
    let redone = m.do_redo(actor("a"), 3, None, Clock::empty());
    assert_eq!(redone, Ok(vec![shows("x", 1, None, vec![])]));
}

#[test]
fn undo_that_has_not_seen_a_value_shows_it_again() {
    let mut m = OpSet::init();
    m.apply_change(change("a", 1, &Clock::empty(), vec![put("x", 5)]), false).unwrap();
    m.apply_change(change("b", 1, &Clock::empty(), vec![put("x", 3)]), true).unwrap();
    assert_eq!(m.undo_stack, vec![vec![put("x", 5)]]);
    let seen = Conflict {
        actor: actor("a"),
        value: ElementValue::Primitive(PrimitiveValue::Number(5)),
        datatype: None,
    };
    assert_eq!(
        m.object_store.generate_diffs(),
        vec![shows("x", 3, None, vec![seen.clone()])]
    );
    // The value that was there is given again, beside the one that stayed.
    assert_eq!(
        m.do_undo(actor("b"), 2, None, Clock::empty()),
        Ok(vec![shows("x", 5, None, vec![seen])])
    );
    assert!(!m.can_undo());
}

#[test]
fn undo_of_an_increment_leaves_out_the_same_counters() {
    let mut m = OpSet::init();
    m.apply_change(change("a", 1, &Clock::empty(), vec![count("n", 10)]), false).unwrap();
    m.apply_change(change("b", 1, &Clock::empty(), vec![raise("n", 3)]), true).unwrap();
    let counter = Some(DataType::Counter);
    assert_eq!(m.object_store.generate_diffs(), vec![shows("n", 10, counter, vec![])]);
    let mut n = m.clone();
    m.do_undo(actor("b"), 2, None, Clock::empty()).unwrap();
    assert_eq!(m.object_store.generate_diffs(), vec![shows("n", 10, counter, vec![])]);
    // One that has seen the counter takes it down.
    let deps = n.clock.clone();
    n.do_undo(actor("b"), 2, None, deps).unwrap();
    assert_eq!(n.object_store.generate_diffs(), vec![shows("n", 7, counter, vec![])]);
}

#[test]
fn undoable_change_that_waits_can_be_undone_once_it_is_applied() {
    let mut m = OpSet::init();
    let map = ObjectID::ID("map".to_string());
    let link = Operation::Link { object_id: ObjectID::Root, key: key("k"), value: map.clone() };
    let make = Operation::MakeMap { object_id: map };
    assert_eq!(m.apply_change(change("a", 2, &Clock::empty(), vec![link]), true), Ok(vec![]));
    assert!(!m.can_undo());
    let first = m.apply_change(change("a", 1, &Clock::empty(), vec![make]), false);
    assert_eq!(first.map(|diffs| diffs.len()), Ok(2));
    assert_eq!(m.undo_stack.len(), 1);
    assert!(m.can_undo());
    assert_eq!(m.undo_stack, vec![vec![delete("k")]]);
    assert_eq!(m.do_undo(actor("a"), 3, None, Clock::empty()), Ok(vec![removed("k")]));
}

#[test]
fn change_that_waits_is_not_made_undoable_by_the_one_that_it_waits_for() {
    let mut m = OpSet::init();
    let second = change("a", 2, &Clock::empty(), vec![put("x", 2)]);
    assert_eq!(m.apply_change(second, false), Ok(vec![]));
    m.apply_change(change("a", 1, &Clock::empty(), vec![put("y", 1)]), true).unwrap();
    assert_eq!(m.undo_stack, vec![vec![delete("y")]]);
    assert_eq!(m.do_undo(actor("a"), 3, None, Clock::empty()), Ok(vec![removed("y")]));
    assert!(!m.can_undo());
    assert_eq!(m.object_store.generate_diffs(), vec![shows("x", 2, None, vec![])]);
}

#[test]
fn undo_can_make_an_undoable_change_ready() {
    let mut m = OpSet::init();
    m.apply_change(change("a", 1, &Clock::empty(), vec![put("x", 1)]), true).unwrap();
    let deps = Clock::empty().with(&actor("a"), 2);
    assert_eq!(m.apply_change(change("b", 1, &deps, vec![put("y", 9)]), true), Ok(vec![]));
    assert_eq!(
        m.do_undo(actor("a"), 2, None, Clock::empty()),
        Ok(vec![removed("x"), shows("y", 9, None, vec![])])
    );
    assert!(m.can_undo());
    assert_eq!(m.undo_stack, vec![vec![delete("y")]]);
}

#[test]
fn redo_can_make_an_undoable_change_ready() {
    let mut m = OpSet::init();
    assert!(!m.can_note_after_redo());
    m.apply_change(change("a", 1, &Clock::empty(), vec![put("x", 1)]), true).unwrap();
    m.do_undo(actor("a"), 2, None, Clock::empty()).unwrap();
    assert!(m.can_note_after_redo());
    let deps = Clock::empty().with(&actor("a"), 3);
    assert_eq!(m.apply_change(change("b", 1, &deps, vec![put("y", 9)]), true), Ok(vec![]));
    assert_eq!(
        m.do_redo(actor("a"), 3, None, Clock::empty()),
        Ok(vec![shows("x", 1, None, vec![]), shows("y", 9, None, vec![])])
    );
    assert_eq!(m.undo_stack, vec![vec![delete("x")], vec![delete("y")]]);
    assert_eq!(m.do_undo(actor("b"), 2, None, Clock::empty()), Ok(vec![removed("y")]));
    assert_eq!(m.do_undo(actor("a"), 4, None, Clock::empty()), Ok(vec![removed("x")]));
    assert!(!m.can_undo());
}

#[test]
fn undoable_and_other_changes_that_wait_are_told_apart() {
    let early = change("a", 2, &Clock::empty(), vec![put("x", 2)]);
    let mut m = OpSet::init();
    m.apply_change(early.clone(), true).unwrap();
    let mut n = OpSet::init();
    n.apply_change(early, false).unwrap();
    assert!(!(m == n));
    assert!(m == m.clone());
}

#[test]
fn nothing_to_undo_or_redo_is_an_error_for_every_number() {
    let mut m = OpSet::init();
    let before = m.clone();
    let undone = m.do_undo(actor("a"), 0, None, Clock::empty());
    assert_eq!(undone, Err(AutomergeError::InvalidChange("No undo ops to execute".to_string())));
    let redone = m.do_redo(actor("a"), 0, None, Clock::empty());
    assert_eq!(redone, Err(AutomergeError::InvalidChange("no redo ops".to_string())));
    assert!(m == before);
}

#[test]
fn waiting_change_says_whether_it_is_to_be_undoable() {
    let mut m = OpSet::init();
    assert!(!m.undoable_change_waits());
    m.apply_change(change("a", 3, &Clock::empty(), vec![put("x", 3)]), false).unwrap();
    assert!(!m.undoable_change_waits());
    m.apply_change(change("a", 2, &Clock::empty(), vec![put("x", 2)]), true).unwrap();
    assert!(m.undoable_change_waits());
    m.apply_change(change("a", 1, &Clock::empty(), vec![put("x", 1)]), false).unwrap();
    assert!(!m.undoable_change_waits());
}

#[test]
fn undo_is_reported_like_the_change_that_it_is() {
    let mut m = OpSet::init();
    m.apply_change(change("a", 1, &Clock::empty(), vec![put("x", 1)]), false).unwrap();
    m.apply_change(change("a", 2, &Clock::empty(), vec![put("x", 2)]), true).unwrap();
    let mut n = m.clone();
    let mut back = change("a", 3, &Clock::empty(), vec![put("x", 1)]);
    back.message = None;
    assert_eq!(
        m.do_undo(actor("a"), 3, None, Clock::empty()),
        n.apply_change(back, false)
    );
    assert!(m.object_store == n.object_store);
    assert!(m.clock == n.clock);
    assert!(m.states == n.states);
}
