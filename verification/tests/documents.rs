//! Whole documents: what makes them, and when replicas agree.

use automerge_backend::actor_states::ActorStates;
use automerge_backend::clock::Clock;
use automerge_backend::diff::{Conflict, Diff, DiffAction, ElementValue, MapType, SequenceType};
use automerge_backend::ids::{ActorID, ElementID, Key, ObjectID};
use automerge_backend::object_store::{map_op_to_assign_diff, MapState, ObjectState, ObjectStore};
use automerge_backend::op_set::OpSet;
use automerge_backend::protocol::{Change, Operation, OperationWithMetadata, PrimitiveValue};

fn actor(name: &str) -> ActorID {
    ActorID(name.to_string())
}

fn object(name: &str) -> ObjectID {
    ObjectID::ID(name.to_string())
}

fn key(name: &str) -> Key {
    Key(name.to_string())
}

fn put(id: &ObjectID, name: &str, text: &str) -> Operation {
    Operation::SetValue {
        object_id: id.clone(),
        key: key(name),
        value: PrimitiveValue::Str(text.to_string()),
        datatype: None,
    }
}

fn link(id: &ObjectID, name: &str, to: &ObjectID) -> Operation {
    Operation::Link { object_id: id.clone(), key: key(name), value: to.clone() }
}

fn change(name: &str, seq: u32, deps: &Clock, operations: Vec<Operation>) -> Change {
    Change { actor_id: actor(name), seq, message: None, dependencies: deps.clone(), operations }
}

fn plain(action: DiffAction) -> Diff {
    Diff { action, conflicts: vec![] }
}

fn sets(id: &ObjectID, t: MapType, name: &str, value: ElementValue) -> Diff {
    plain(DiffAction::SetMapKey(id.clone(), t, key(name), value, None))
}

fn text(s: &str) -> ElementValue {
    ElementValue::Primitive(PrimitiveValue::Str(s.to_string()))
}

#[test]
fn linked_objects_come_before_the_root() {
    let mut m = OpSet::init();
    let table = object("t");
    let row = object("r");
    let ops = vec![
        Operation::MakeTable { object_id: table.clone() },
        Operation::MakeMap { object_id: row.clone() },
        put(&row, "name", "one"),
        link(&table, "row", &row),
        link(&ObjectID::Root, "table", &table),
    ];
    let reported = m.apply_change(change("a", 1, &Clock::empty(), ops), false);
    let made = |id: &ObjectID, t: MapType| plain(DiffAction::CreateMap(id.clone(), t));
    assert_eq!(
        reported,
        Ok(vec![
            made(&table, MapType::Table),
            made(&row, MapType::PlainMap),
            sets(&row, MapType::PlainMap, "name", text("one")),
            sets(&table, MapType::Table, "row", ElementValue::Link(row.clone())),
            sets(&ObjectID::Root, MapType::PlainMap, "table", ElementValue::Link(table.clone())),
        ])
    );
    assert_eq!(
        m.object_store.generate_diffs(),
        vec![
            made(&row, MapType::PlainMap),
            sets(&row, MapType::PlainMap, "name", text("one")),
            made(&table, MapType::Table),
            sets(&table, MapType::Table, "row", ElementValue::Link(row)),
            sets(&ObjectID::Root, MapType::PlainMap, "table", ElementValue::Link(table)),
        ]
    );
}

#[test]
fn objects_that_nothing_refers_to_are_left_out() {
    let mut m = OpSet::init();
    let lost = object("lost");
    let ops = vec![
        Operation::MakeText { object_id: lost.clone() },
        put(&ObjectID::Root, "x", "y"),
    ];
    let reported = m.apply_change(change("a", 1, &Clock::empty(), ops), false).unwrap();
    assert_eq!(reported[0], plain(DiffAction::CreateList(lost.clone(), SequenceType::Text)));
    assert_eq!(
        m.object_store.generate_diffs(),
        vec![sets(&ObjectID::Root, MapType::PlainMap, "x", text("y"))]
    );
    assert!(m.object_store.history_for_object_id(&lost).is_some());
}

#[test]
fn reference_to_a_missing_object_is_kept() {
    let mut m = OpSet::init();
    let gone = object("gone");
    let op = link(&ObjectID::Root, "x", &gone);
    m.apply_change(change("a", 1, &Clock::empty(), vec![op]), false).unwrap();
    assert_eq!(
        m.object_store.generate_diffs(),
        vec![sets(&ObjectID::Root, MapType::PlainMap, "x", ElementValue::Link(gone.clone()))]
    );
    assert!(m.object_store.history_for_object_id(&gone).is_none());
}

#[test]
fn objects_of_values_that_lost_are_made_too() {
    let mut m = OpSet::init();
    let one = object("one");
    let two = object("two");
    let a = vec![
        Operation::MakeMap { object_id: one.clone() },
        link(&ObjectID::Root, "x", &one),
    ];
    let b = vec![
        Operation::MakeMap { object_id: two.clone() },
        link(&ObjectID::Root, "x", &two),
    ];
    m.apply_change(change("a", 1, &Clock::empty(), a), false).unwrap();
    m.apply_change(change("b", 1, &Clock::empty(), b), false).unwrap();
    let made = |id: &ObjectID| plain(DiffAction::CreateMap(id.clone(), MapType::PlainMap));
    let last = Diff {
        action: DiffAction::SetMapKey(
            ObjectID::Root,
            MapType::PlainMap,
            key("x"),
            ElementValue::Link(two.clone()),
            None,
        ),
        conflicts: vec![Conflict {
            actor: actor("a"),
            value: ElementValue::Link(one.clone()),
            datatype: None,
        }],
    };
    assert_eq!(m.object_store.generate_diffs(), vec![made(&two), made(&one), last]);
}

#[test]
fn objects_that_refer_to_each_other_are_made_once_each() {
    let mut m = OpSet::init();
    let one = object("one");
    let two = object("two");
    let ops = vec![
        Operation::MakeMap { object_id: one.clone() },
        Operation::MakeMap { object_id: two.clone() },
        link(&one, "to", &two),
        link(&two, "to", &one),
        link(&ObjectID::Root, "x", &one),
    ];
    m.apply_change(change("a", 1, &Clock::empty(), ops), false).unwrap();
    let diffs = m.object_store.generate_diffs();
    let made: Vec<&Diff> = diffs
        .iter()
        .filter(|d| matches!(d.action, DiffAction::CreateMap(_, _)))
        .collect();
    assert_eq!(made.len(), 2);
    assert_eq!(
        diffs.last(),
        Some(&sets(&ObjectID::Root, MapType::PlainMap, "x", ElementValue::Link(one)))
    );
}

#[test]
fn object_that_is_made_again_starts_anew() {
    let mut m = OpSet::init();
    let one = object("one");
    let ops = vec![
        Operation::MakeMap { object_id: one.clone() },
        put(&one, "x", "old"),
        Operation::MakeMap { object_id: one.clone() },
    ];
    m.apply_change(change("a", 1, &Clock::empty(), ops), false).unwrap();
    match m.object_store.history_for_object_id(&one) {
        Some(ObjectState::MapObject(state)) => {
            assert!(*state == MapState::new(MapType::PlainMap, one.clone()));
        }
        _ => panic!("there is no map"),
    }
    assert!(m.object_store.concurrent_operations_for_field(&one, &key("x")).is_none());
}

#[test]
fn replicas_that_applied_the_same_agree() {
    let a1 = change("a", 1, &Clock::empty(), vec![put(&ObjectID::Root, "x", "a1")]);
    let b1 = change("b", 1, &Clock::empty(), vec![put(&ObjectID::Root, "x", "b1")]);
    let seen = Clock::empty().with(&actor("a"), 1);
    let c1 = change("c", 1, &seen, vec![put(&ObjectID::Root, "x", "c1")]);
    let b2 = change("b", 2, &seen, vec![put(&ObjectID::Root, "y", "b2")]);
    let orders = vec![
        vec![a1.clone(), b1.clone(), c1.clone(), b2.clone()],
        vec![b2.clone(), c1.clone(), b1.clone(), a1.clone()],
        vec![c1.clone(), b2.clone(), a1.clone(), b1.clone()],
    ];
    let mut replicas: Vec<OpSet> = Vec::new();
    for order in orders {
        let mut m = OpSet::init();
        for c in order {
            m.apply_change(c, false).unwrap();
        }
        replicas.push(m);
    }
    assert!(replicas[0].object_store == replicas[1].object_store);
    assert!(replicas[0].object_store == replicas[2].object_store);
    assert!(replicas[0].clock == replicas[1].clock);
    assert!(replicas[0].clock == replicas[2].clock);
    let field = replicas[0]
        .object_store
        .concurrent_operations_for_field(&ObjectID::Root, &key("x"))
        .unwrap();
    assert_eq!(
        field.pure_operations(),
        vec![put(&ObjectID::Root, "x", "c1"), put(&ObjectID::Root, "x", "b1")]
    );
}

#[test]
fn stores_are_equal_whichever_field_was_written_first() {
    let states = ActorStates::new();
    let at = |operation: Operation| OperationWithMetadata {
        sequence: 1,
        actor_id: actor("a"),
        operation,
    };
    let x = put(&ObjectID::Root, "x", "1");
    let y = put(&ObjectID::Root, "y", "2");
    let mut one = ObjectStore::new();
    one.apply_operation(&states, at(x.clone())).unwrap();
    assert!(one != ObjectStore::new());
    one.apply_operation(&states, at(y.clone())).unwrap();
    let mut two = ObjectStore::new();
    two.apply_operation(&states, at(y)).unwrap();
    assert!(one != two);
    two.apply_operation(&states, at(x)).unwrap();
    assert!(one == two);
    assert!(one.clone() == two.clone());
}

#[test]
fn map_state_takes_operations_in() {
    let states = ActorStates::new();
    let id = object("m");
    let mut m = MapState::new(MapType::Table, id.clone());
    assert_eq!(m.generate_diffs(), vec![plain(DiffAction::CreateMap(id.clone(), MapType::Table))]);
    let op = OperationWithMetadata {
        sequence: 1,
        actor_id: actor("a"),
        operation: put(&id, "x", "1"),
    };
    let (diff, undo) = m.handle_mutating_op(op, &states, &key("x")).unwrap();
    let shown = sets(&id, MapType::Table, "x", text("1"));
    assert_eq!(diff, Some(shown.clone()));
    assert_eq!(undo, vec![Operation::Delete { object_id: id.clone(), key: key("x") }]);
    assert_eq!(
        m.generate_diffs(),
        vec![plain(DiffAction::CreateMap(id.clone(), MapType::Table)), shown]
    );
    let mut state = ObjectState::MapObject(m);
    let gone = OperationWithMetadata {
        sequence: 1,
        actor_id: actor("b"),
        operation: Operation::Delete { object_id: id.clone(), key: key("y") },
    };
    let (diff, _) = state.handle_mutating_op(gone, &states, &key("y")).unwrap();
    assert_eq!(diff, Some(plain(DiffAction::RemoveMapKey(id, MapType::Table, key("y")))));
}

#[test]
fn values_are_shown_as_fields() {
    let t = MapType::PlainMap;
    let id = object("m");
    assert_eq!(
        map_op_to_assign_diff(&put(&id, "x", "1"), &t),
        Some(DiffAction::SetMapKey(id.clone(), t, key("x"), text("1"), None))
    );
    assert_eq!(
        map_op_to_assign_diff(&link(&id, "x", &ObjectID::Root), &t),
        Some(DiffAction::SetMapKey(id.clone(), t, key("x"), ElementValue::Link(ObjectID::Root), None))
    );
    let delete = Operation::Delete { object_id: id.clone(), key: key("x") };
    assert_eq!(map_op_to_assign_diff(&delete, &t), None);
    assert_eq!(map_op_to_assign_diff(&Operation::MakeMap { object_id: id }, &t), None);
}

#[test]
fn new_objects_are_empty() {
    let id = object("o");
    assert_eq!(
        ObjectState::new_map(MapType::PlainMap, id.clone()).generate_diffs(),
        vec![plain(DiffAction::CreateMap(id.clone(), MapType::PlainMap))]
    );
    assert!(ObjectState::new_map(MapType::PlainMap, ObjectID::Root).generate_diffs().is_empty());
    assert_eq!(
        ObjectState::new_sequence(SequenceType::Text, id.clone()).generate_diffs(),
        vec![
            plain(DiffAction::CreateList(id.clone(), SequenceType::Text)),
            plain(DiffAction::MaxElem(id.clone(), 0, SequenceType::Text)),
        ]
    );
    assert!(
        ObjectState::new_map(MapType::PlainMap, id.clone())
            != ObjectState::new_sequence(SequenceType::List, id)
    );
}

#[test]
fn element_fields_are_found_by_their_key() {
    let mut m = OpSet::init();
    let list = object("l");
    let ops = vec![
        Operation::MakeList { object_id: list.clone() },
        Operation::Insert { list_id: list.clone(), key: ElementID::Head, elem: 1 },
        put(&list, "a:1", "v"),
    ];
    m.apply_change(change("a", 1, &Clock::empty(), ops), false).unwrap();
    let field = m.object_store.concurrent_operations_for_field(&list, &key("a:1")).unwrap();
    assert_eq!(field.active_op().map(|o| o.operation.clone()), Some(put(&list, "a:1", "v")));
    assert!(field.conflicts().is_empty());
    assert!(m.object_store.concurrent_operations_for_field(&list, &key("a:2")).is_none());
    assert!(m.object_store.concurrent_operations_for_field(&list, &key("a")).is_none());
    assert!(m.object_store.concurrent_operations_for_field(&object("x"), &key("a")).is_none());
}

#[test]
fn tree_is_made_once_and_from_its_leaves() {
    let mut m = OpSet::init();
    let names = ["p", "q", "r", "s"];
    let made: Vec<Operation> =
        names.iter().map(|n| Operation::MakeMap { object_id: object(n) }).collect();
    m.apply_change(change("a", 1, &Clock::empty(), made), false).unwrap();
    let links = vec![
        link(&ObjectID::Root, "p", &object("p")),
        link(&ObjectID::Root, "s", &object("s")),
        link(&object("p"), "q", &object("q")),
        link(&object("q"), "r", &object("r")),
    ];
    m.apply_change(change("a", 2, &Clock::empty(), links), false).unwrap();
    let steps = m.object_store.generate_diffs();
    let place = |name: &str| -> usize {
        let creation = plain(DiffAction::CreateMap(object(name), MapType::PlainMap));
        let places: Vec<usize> = (0..steps.len()).filter(|i| steps[*i] == creation).collect();
        assert_eq!(places.len(), 1);
        places[0]
    };
    assert!(place("r") < place("q"));
    assert!(place("q") < place("p"));
    assert!(place("s") < steps.len() - 2);
    assert_eq!(steps.len(), 8);
}

#[test]
fn object_that_two_changes_make_alike_is_the_same_in_either_order() {
    let make = || vec![Operation::MakeMap { object_id: object("o") }];
    let one = change("a", 1, &Clock::empty(), make());
    let two = change("b", 1, &Clock::empty(), make());
    let mut m = OpSet::init();
    m.apply_change(one.clone(), false).unwrap();
    m.apply_change(two.clone(), false).unwrap();
    let mut n = OpSet::init();
    n.apply_change(two, false).unwrap();
    n.apply_change(one, false).unwrap();
    assert!(m.object_store == n.object_store);
}
