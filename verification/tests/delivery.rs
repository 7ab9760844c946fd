//! Changes come in, in any order.

use automerge_backend::clock::Clock;
use automerge_backend::diff::{Conflict, Diff, DiffAction, ElementValue, MapType};
use automerge_backend::error::AutomergeError;
use automerge_backend::ids::{ActorID, ElementID, Key, ObjectID};
use automerge_backend::op_set::OpSet;
use automerge_backend::protocol::{Change, Operation, PrimitiveValue};

fn actor(name: &str) -> ActorID {
    ActorID(name.to_string())
}

fn clock(entries: &[(&str, u32)]) -> Clock {
    let mut c = Clock::empty();
    for (name, seq) in entries {
        c = c.with(&actor(name), *seq);
    }
    c
}

fn put(key: &str, n: i64) -> Operation {
    Operation::SetValue {
        object_id: ObjectID::Root,
        key: Key(key.to_string()),
        value: PrimitiveValue::Number(n),
        datatype: None,
    }
}

fn change(name: &str, seq: u32, deps: &[(&str, u32)], operations: Vec<Operation>) -> Change {
    Change { actor_id: actor(name), seq, message: None, dependencies: clock(deps), operations }
}

fn shows(key: &str, n: i64, conflicts: Vec<Conflict>) -> Diff {
    Diff {
        action: DiffAction::SetMapKey(
            ObjectID::Root,
            MapType::PlainMap,
            Key(key.to_string()),
            ElementValue::Primitive(PrimitiveValue::Number(n)),
            None,
        ),
        conflicts,
    }
}

fn lost(name: &str, n: i64) -> Conflict {
    Conflict {
        actor: actor(name),
        value: ElementValue::Primitive(PrimitiveValue::Number(n)),
        datatype: None,
    }
}

#[test]
fn nothing_came_at_first() {
    let m = OpSet::init();
    assert!(!m.can_undo());
    assert!(!m.can_redo());
    assert!(m.get_missing_changes(&Clock::empty()).is_empty());
    assert!(m.get_missing_deps() == Clock::empty());
    assert!(m.object_store.generate_diffs().is_empty());
}

#[test]
fn change_is_reported() {
    let mut m = OpSet::init();
    let diffs = m.apply_change(change("a", 1, &[], vec![put("x", 5), put("y", 6)]), false);
    assert_eq!(diffs, Ok(vec![shows("x", 5, vec![]), shows("y", 6, vec![])]));
    assert_eq!(m.clock.get(&actor("a")), 1);
    assert_eq!(m.clock.get(&actor("b")), 0);
    assert!(!m.can_undo());
}

#[test]
fn change_waits_for_what_it_depends_on() {
    let mut m = OpSet::init();
    let early = m.apply_change(change("b", 1, &[("a", 1)], vec![put("x", 2)]), false);
    assert_eq!(early, Ok(vec![]));
    assert!(m.get_missing_deps() == clock(&[("a", 1)]));
    assert!(m.get_missing_changes(&Clock::empty()).is_empty());
    let late = m.apply_change(change("a", 1, &[], vec![put("x", 1)]), false);
    assert_eq!(late, Ok(vec![shows("x", 1, vec![]), shows("x", 2, vec![])]));
    assert!(m.get_missing_deps() == Clock::empty());
    assert!(m.clock == clock(&[("a", 1), ("b", 1)]));
}

#[test]
fn whichever_comes_first_the_outcome_is_the_same() {
    let first = change("a", 1, &[], vec![put("x", 1)]);
    let second = change("b", 1, &[("a", 1)], vec![put("x", 2)]);
    let mut m = OpSet::init();
    m.apply_change(first.clone(), false).unwrap();
    m.apply_change(second.clone(), false).unwrap();
    let mut n = OpSet::init();
    n.apply_change(second, false).unwrap();
    n.apply_change(first, false).unwrap();
    assert!(m == n);
}

#[test]
fn changes_of_an_actor_are_applied_by_number() {
    let mut m = OpSet::init();
    assert_eq!(m.apply_change(change("a", 3, &[], vec![put("x", 3)]), false), Ok(vec![]));
    assert_eq!(m.apply_change(change("a", 2, &[], vec![put("x", 2)]), false), Ok(vec![]));
    assert!(m.get_missing_deps() == clock(&[("a", 2)]));
    let all = m.apply_change(change("a", 1, &[], vec![put("x", 1)]), false);
    assert_eq!(
        all,
        Ok(vec![shows("x", 1, vec![]), shows("x", 2, vec![]), shows("x", 3, vec![])])
    );
    let seqs: Vec<u32> = m.get_missing_changes(&Clock::empty()).iter().map(|c| c.seq).collect();
    assert_eq!(seqs, vec![1, 2, 3]);
}

#[test]
fn missing_deps_are_the_largest_needed() {
    let mut m = OpSet::init();
    m.apply_change(change("a", 4, &[("b", 2)], vec![]), false).unwrap();
    m.apply_change(change("c", 1, &[("b", 5), ("d", 1)], vec![]), false).unwrap();
    assert!(m.get_missing_deps() == clock(&[("a", 3), ("b", 5), ("d", 1)]));
}

#[test]
fn change_that_comes_twice_is_ignored() {
    let mut m = OpSet::init();
    let c = change("a", 1, &[], vec![put("x", 1)]);
    m.apply_change(c.clone(), true).unwrap();
    let before = m.clone();
    assert_eq!(m.apply_change(c, true), Ok(vec![]));
    assert!(m == before);
    assert_eq!(m.get_missing_changes(&Clock::empty()).len(), 1);
}

#[test]
fn sequence_number_cannot_be_used_again() {
    let mut m = OpSet::init();
    m.apply_change(change("a", 1, &[], vec![put("x", 1)]), false).unwrap();
    let before = m.clone();
    let r = m.apply_change(change("a", 1, &[], vec![put("x", 2)]), false);
    assert_eq!(
        r,
        Err(AutomergeError::InvalidChange(
            "Invalid reuse of sequence number for actor".to_string()
        ))
    );
    assert!(m == before);
}

#[test]
fn missing_changes_are_those_not_seen() {
    let mut m = OpSet::init();
    m.apply_change(change("a", 1, &[], vec![put("x", 1)]), false).unwrap();
    m.apply_change(change("b", 1, &[("a", 1)], vec![put("x", 2)]), false).unwrap();
    m.apply_change(change("a", 2, &[("b", 1)], vec![put("x", 3)]), false).unwrap();
    let since = clock(&[("a", 1)]);
    let missing: Vec<(String, u32)> = m
        .get_missing_changes(&since)
        .iter()
        .map(|c| (c.actor_id.0.clone(), c.seq))
        .collect();
    assert_eq!(missing, vec![("b".to_string(), 1), ("a".to_string(), 2)]);
    assert!(m.get_missing_changes(&m.clock).is_empty());
    assert_eq!(m.get_missing_changes(&Clock::empty()).len(), 3);
}

#[test]
fn missing_changes_bring_another_replica_up_to_date() {
    let mut m = OpSet::init();
    m.apply_change(change("a", 1, &[], vec![put("x", 1)]), false).unwrap();
    let mut n = m.clone();
    m.apply_change(change("b", 1, &[("a", 1)], vec![put("y", 2)]), false).unwrap();
    m.apply_change(change("a", 2, &[("b", 1)], vec![put("x", 3)]), false).unwrap();
    let missing: Vec<Change> = m.get_missing_changes(&n.clock).into_iter().cloned().collect();
    for c in missing {
        n.apply_change(c, false).unwrap();
    }
    assert!(m == n);
}

#[test]
fn concurrent_values_conflict() {
    let mut m = OpSet::init();
    m.apply_change(change("a", 1, &[], vec![put("x", 1)]), false).unwrap();
    let diffs = m.apply_change(change("b", 1, &[], vec![put("x", 2)]), false);
    assert_eq!(diffs, Ok(vec![shows("x", 2, vec![lost("a", 1)])]));
    // One who has seen both replaces both.
    let seen = change("c", 1, &[("a", 1), ("b", 1)], vec![put("x", 3)]);
    assert_eq!(m.apply_change(seen, false), Ok(vec![shows("x", 3, vec![])]));
}

#[test]
fn value_of_the_last_actor_is_shown_whichever_comes_first() {
    let a = change("a", 1, &[], vec![put("x", 1)]);
    let b = change("b", 1, &[], vec![put("x", 2)]);
    let c = change("c", 1, &[], vec![put("x", 3)]);
    let orders = vec![
        vec![a.clone(), b.clone(), c.clone()],
        vec![c.clone(), a.clone(), b.clone()],
        vec![b.clone(), c.clone(), a.clone()],
    ];
    for order in orders {
        let mut m = OpSet::init();
        for change in order {
            m.apply_change(change, false).unwrap();
        }
        assert_eq!(
            m.object_store.generate_diffs(),
            vec![shows("x", 3, vec![lost("b", 2), lost("a", 1)])]
        );
    }
}

#[test]
fn what_a_change_builds_on_indirectly_is_replaced_too() {
    let mut m = OpSet::init();
    m.apply_change(change("a", 1, &[], vec![put("x", 1)]), false).unwrap();
    m.apply_change(change("b", 1, &[("a", 1)], vec![put("y", 1)]), false).unwrap();
    let diffs = m.apply_change(change("c", 1, &[("b", 1)], vec![put("x", 2)]), false);
    assert_eq!(diffs, Ok(vec![shows("x", 2, vec![])]));
}

#[test]
fn deletion_removes_what_it_has_seen() {
    let mut m = OpSet::init();
    let delete = Operation::Delete { object_id: ObjectID::Root, key: Key("x".to_string()) };
    m.apply_change(change("a", 1, &[], vec![put("x", 1)]), false).unwrap();
    m.apply_change(change("b", 1, &[], vec![put("x", 2)]), false).unwrap();
    let some = m.apply_change(change("c", 1, &[("b", 1)], vec![delete.clone()]), false);
    assert_eq!(some, Ok(vec![shows("x", 1, vec![])]));
    let all = m.apply_change(change("c", 2, &[("a", 1)], vec![delete]), false);
    assert_eq!(
        all,
        Ok(vec![Diff {
            action: DiffAction::RemoveMapKey(
                ObjectID::Root,
                MapType::PlainMap,
                Key("x".to_string()),
            ),
            conflicts: vec![],
        }])
    );
}

#[test]
fn missing_object_is_refused() {
    let mut m = OpSet::init();
    let gone = ObjectID::ID("gone".to_string());
    let bad = Operation::Delete { object_id: gone.clone(), key: Key("x".to_string()) };
    let r = m.apply_change(change("a", 1, &[], vec![put("x", 1), bad]), true);
    assert_eq!(r, Err(AutomergeError::MissingObjectError(gone.clone())));
    // What came before it stays, but the change is not counted as seen.
    assert_eq!(m.object_store.generate_diffs(), vec![shows("x", 1, vec![])]);
    assert!(m.clock == Clock::empty());
    assert!(!m.can_undo());
    let insert = Operation::Insert { list_id: gone.clone(), key: ElementID::Head, elem: 1 };
    let r = m.apply_change(change("b", 1, &[], vec![insert]), true);
    assert_eq!(r, Err(AutomergeError::MissingObjectError(gone)));
}

#[test]
fn refused_change_ends_the_run() {
    let mut m = OpSet::init();
    let gone = ObjectID::ID("gone".to_string());
    let bad = Operation::Delete { object_id: gone.clone(), key: Key("x".to_string()) };
    m.apply_change(change("b", 1, &[("a", 1)], vec![bad]), false).unwrap();
    m.apply_change(change("c", 1, &[("a", 1)], vec![put("y", 1)]), false).unwrap();
    let r = m.apply_change(change("a", 1, &[], vec![put("x", 1)]), false);
    assert_eq!(r, Err(AutomergeError::MissingObjectError(gone)));
    assert!(m.clock == clock(&[("a", 1)]));
    assert!(m.get_missing_deps() == clock(&[("a", 1)]));
    // The change that still waits is applied with the next one.
    let r = m.apply_change(change("d", 1, &[], vec![]), false);
    assert_eq!(r, Ok(vec![shows("y", 1, vec![])]));
}

#[test]
fn same_changes_come_to_the_same_in_any_order() {
    // The last of these waits: what it depends on never comes. One comes twice.
    let changes = [
        change("a", 1, &[], vec![put("x", 1)]),
        change("b", 1, &[], vec![put("x", 2)]),
        change("a", 2, &[("b", 1)], vec![put("y", 3)]),
        change("a", 2, &[("b", 1)], vec![put("y", 3)]),
        change("c", 2, &[("a", 1)], vec![put("z", 4)]),
    ];
    let orders = [[0, 1, 2, 3, 4], [4, 3, 2, 1, 0], [2, 0, 4, 3, 1], [1, 4, 2, 0, 3]];
    for order in orders {
        let mut m = OpSet::init();
        for i in order {
            m.apply_change(changes[i].clone(), i % 2 == 0).unwrap();
        }
        assert!(m.clock == clock(&[("a", 2), ("b", 1)]));
        assert!(m.get_missing_deps() == clock(&[("a", 1), ("c", 1)]));
        let applied = m.get_missing_changes(&Clock::empty());
        assert_eq!(applied.len(), 3);
        for c in &changes[..3] {
            assert!(applied.iter().any(|a| **a == *c));
        }
        let shown = m.object_store.generate_diffs();
        assert_eq!(shown.len(), 2);
        assert!(shown.contains(&shows("x", 2, vec![lost("a", 1)])));
        assert!(shown.contains(&shows("y", 3, vec![])));
    }
}

#[test]
fn one_who_saw_more_misses_fewer_changes() {
    let mut m = OpSet::init();
    m.apply_change(change("a", 1, &[], vec![put("x", 1)]), false).unwrap();
    m.apply_change(change("b", 1, &[], vec![put("y", 1)]), false).unwrap();
    m.apply_change(change("a", 2, &[], vec![put("x", 2)]), false).unwrap();
    m.apply_change(change("b", 2, &[], vec![put("y", 2)]), false).unwrap();
    let names = |since: &Clock| -> Vec<(String, u32)> {
        m.get_missing_changes(since).iter().map(|c| (c.actor_id.0.clone(), c.seq)).collect()
    };
    let a = |n: u32| ("a".to_string(), n);
    let b = |n: u32| ("b".to_string(), n);
    assert_eq!(names(&clock(&[("a", 1)])), vec![b(1), a(2), b(2)]);
    assert_eq!(names(&clock(&[("a", 1), ("b", 1)])), vec![a(2), b(2)]);
    assert_eq!(names(&clock(&[("a", 2), ("b", 1)])), vec![b(2)]);
}
