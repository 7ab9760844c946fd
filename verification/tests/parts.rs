//! Clocks, identifiers, maps and texts.

use automerge_backend::actor_states::ActorStates;
use automerge_backend::assoc::AssocMap;
use automerge_backend::clock::Clock;
use automerge_backend::ids::{ActorID, ElementID, Key, ObjectID};
use automerge_backend::protocol::{Change, Operation, OperationWithMetadata};
use automerge_backend::text::{decimal_text, join, owned, parse_counter, text_less};

fn actor(name: &str) -> ActorID {
    ActorID(name.to_string())
}

#[test]
fn clocks_remember_the_latest() {
    let c = Clock::empty().with(&actor("a"), 3).with(&actor("a"), 2).with(&actor("b"), 1);
    assert_eq!(c.get(&actor("a")), 3);
    assert_eq!(c.get(&actor("b")), 1);
    assert_eq!(c.get(&actor("c")), 0);
    let d = Clock::empty().with(&actor("b"), 5);
    let u = c.union(&d);
    assert_eq!((u.get(&actor("a")), u.get(&actor("b"))), (3, 5));
}

#[test]
fn clocks_are_ordered_by_what_they_have_seen() {
    let none = Clock::empty();
    let a = none.with(&actor("a"), 1);
    let b = none.with(&actor("b"), 1);
    let both = a.with(&actor("b"), 1);
    assert!(none <= a && a <= both && b <= both);
    assert!(!(a <= b) && !(b <= a));
    assert!(a < both && !(both < a));
    assert!(both == b.with(&actor("a"), 1));
    assert!(none == none.with(&actor("a"), 0));
}

#[test]
fn keys_name_elements() {
    let named = |s: &str| Key(s.to_string()).as_element_id();
    assert_eq!(named("_head"), Some(ElementID::Head));
    assert_eq!(named("a:12"), Some(ElementID::SpecificElementID(actor("a"), 12)));
    assert_eq!(named("a:4294967295"), Some(ElementID::SpecificElementID(actor("a"), u32::MAX)));
    assert_eq!(named("a:4294967296"), None);
    assert_eq!(named("a"), None);
    assert_eq!(named("a:"), None);
    assert_eq!(named("a:b"), None);
    assert_eq!(named("a:1:2"), None);
}

#[test]
fn element_ids_are_ordered_by_counter_and_then_by_actor() {
    let e = |name: &str, n: u32| ElementID::SpecificElementID(actor(name), n);
    assert!(ElementID::Head.is_before(&e("a", 0)));
    assert!(!e("a", 0).is_before(&ElementID::Head));
    assert!(e("b", 1).is_before(&e("a", 2)));
    assert!(e("a", 2).is_before(&e("b", 2)));
    assert!(!e("a", 2).is_before(&e("a", 2)));
}

#[test]
fn identifiers_are_shown_in_messages() {
    assert_eq!(ObjectID::Root.shown(), "Root");
    assert_eq!(ObjectID::ID("a\"b\n".to_string()).shown(), "ID(\"a\\\"b\\n\")");
    assert_eq!(ObjectID::ID("a".to_string()).shown_with("TEXT"), "ID(TEXT)");
    assert_eq!(ElementID::Head.shown(), "Head");
    let e = ElementID::SpecificElementID(actor("x"), 42);
    assert_eq!(e.shown(), "SpecificElementID(ActorID(\"x\"), 42)");
    assert_eq!(e.shown_with("TEXT"), "SpecificElementID(ActorID(TEXT), 42)");
}

#[test]
fn texts_are_compared_by_their_characters() {
    assert!(text_less("", "a"));
    assert!(text_less("a", "ab"));
    assert!(text_less("ab", "b"));
    assert!(text_less("Z", "a"));
    assert!(!text_less("a", "a"));
    assert!(!text_less("b", "ab"));
}

#[test]
fn numbers_are_written_in_decimal() {
    assert_eq!(decimal_text(0), "0");
    assert_eq!(decimal_text(1907), "1907");
    assert_eq!(decimal_text(u32::MAX), "4294967295");
    assert_eq!(join(owned("a"), "b"), "ab");
    assert_eq!(parse_counter(&vec!['a', ':', '0', '7'], 2), Some(7));
    assert_eq!(parse_counter(&vec!['a', ':'], 2), None);
    assert_eq!(parse_counter(&vec!['-', '1'], 0), None);
}

#[test]
fn maps_keep_their_keys_in_order() {
    let mut m: AssocMap<ActorID, u32> = AssocMap::new();
    m.insert(actor("b"), 1);
    m.insert(actor("a"), 2);
    m.insert(actor("b"), 3);
    assert_eq!(m.len(), 2);
    assert_eq!(m.key_at(0), &actor("b"));
    assert_eq!(m.get(&actor("b")), Some(&3));
    assert_eq!(m.get(&actor("c")), None);
    assert!(m.contains_key(&actor("a")) && !m.contains_key(&actor("c")));
    *m.get_or_insert(actor("c"), 7) += 1;
    assert_eq!(m.get(&actor("c")), Some(&8));
    *m.get_mut(&actor("c")).unwrap() = 0;
    assert_eq!(m.get(&actor("c")), Some(&0));
    assert!(m.get_mut(&actor("d")).is_none());
}

#[test]
fn operations_of_independent_changes_are_concurrent() {
    let mut states = ActorStates::new();
    let change = |name: &str, seq: u32, deps: Clock| Change {
        actor_id: actor(name),
        seq,
        message: None,
        dependencies: deps,
        operations: vec![],
    };
    assert_eq!(states.add_change(change("a", 1, Clock::empty())), Ok(true));
    assert_eq!(states.add_change(change("b", 1, Clock::empty())), Ok(true));
    let seen_b = Clock::empty().with(&actor("b"), 1);
    assert_eq!(states.add_change(change("c", 1, seen_b)), Ok(true));
    let seen_c = Clock::empty().with(&actor("c"), 1);
    assert_eq!(states.add_change(change("d", 1, seen_c)), Ok(true));
    assert_eq!(states.add_change(change("b", 1, Clock::empty())), Ok(false));
    assert_eq!(states.changes().len(), 4);
    let op = |name: &str, seq: u32| OperationWithMetadata {
        sequence: seq,
        actor_id: actor(name),
        operation: Operation::Delete { object_id: ObjectID::Root, key: Key("k".to_string()) },
    };
    assert!(states.is_concurrent(&op("a", 1), &op("b", 1)));
    assert!(!states.is_concurrent(&op("b", 1), &op("c", 1)));
    assert!(!states.is_concurrent(&op("d", 1), &op("b", 1)));
    assert!(states.is_concurrent(&op("d", 1), &op("a", 1)));
    assert!(states.is_concurrent(&op("a", 1), &op("a", 1)));
    assert_eq!(states.add_change(change("a", 2, Clock::empty())), Ok(true));
    assert!(!states.is_concurrent(&op("a", 1), &op("a", 2)));
}
