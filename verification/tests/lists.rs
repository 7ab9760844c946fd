//! Lists: their order, and what is reported of them.

use automerge_backend::actor_states::ActorStates;
use automerge_backend::assoc::AssocMap;
use automerge_backend::clock::Clock;
use automerge_backend::concurrent_operations::ConcurrentOperations;
use automerge_backend::diff::{Diff, DiffAction, ElementValue, SequenceType};
use automerge_backend::error::AutomergeError;
use automerge_backend::ids::{ActorID, ElementID, Key, ObjectID};
use automerge_backend::list_order::list_ops_in_order;
use automerge_backend::object_store::{
    list_op_to_assign_diff, names_no_element, ListState, ObjectState, ObjectStore,
};
use automerge_backend::op_set::OpSet;
use automerge_backend::protocol::{Change, Operation, OperationWithMetadata, PrimitiveValue};

fn actor(name: &str) -> ActorID {
    ActorID(name.to_string())
}

fn elem(name: &str, n: u32) -> ElementID {
    ElementID::SpecificElementID(actor(name), n)
}

fn list() -> ObjectID {
    ObjectID::ID("list".to_string())
}

fn make() -> Operation {
    Operation::MakeList { object_id: list() }
}

fn insert(after: ElementID, n: u32) -> Operation {
    Operation::Insert { list_id: list(), key: after, elem: n }
}

fn put(key: &str, n: i64) -> Operation {
    Operation::SetValue {
        object_id: list(),
        key: Key(key.to_string()),
        value: PrimitiveValue::Number(n),
        datatype: None,
    }
}

fn delete(key: &str) -> Operation {
    Operation::Delete { object_id: list(), key: Key(key.to_string()) }
}

fn change(name: &str, seq: u32, deps: &Clock, operations: Vec<Operation>) -> Change {
    Change { actor_id: actor(name), seq, message: None, dependencies: deps.clone(), operations }
}

fn number(n: i64) -> ElementValue {
    ElementValue::Primitive(PrimitiveValue::Number(n))
}

fn plain(action: DiffAction) -> Diff {
    Diff { action, conflicts: vec![] }
}

fn created() -> Diff {
    plain(DiffAction::CreateList(list(), SequenceType::List))
}

fn largest(n: u32) -> Diff {
    plain(DiffAction::MaxElem(list(), n, SequenceType::List))
}

fn inserted(i: u32, n: i64, e: ElementID) -> Diff {
    plain(DiffAction::InsertSequenceElement(
        list(),
        SequenceType::List,
        i,
        number(n),
        None,
        e,
    ))
}

fn state(m: &OpSet) -> ListState {
    match m.object_store.history_for_object_id(&list()) {
        Some(ObjectState::List(l)) => l.clone(),
        _ => panic!("there is no list"),
    }
}

fn order(m: &OpSet) -> Vec<ElementID> {
    let l = state(m);
    list_ops_in_order(&l.operations_by_elemid, &l.following)
        .unwrap()
        .into_iter()
        .map(|(e, _)| e)
        .collect()
}

fn following(entries: Vec<(ElementID, Vec<ElementID>)>) -> AssocMap<ElementID, Vec<ElementID>> {
    let mut m = AssocMap::new();
    for (k, v) in entries {
        m.insert(k, v);
    }
    m
}

fn known(ids: Vec<ElementID>) -> AssocMap<ElementID, ConcurrentOperations> {
    let mut m = AssocMap::new();
    for id in ids {
        m.insert(id, ConcurrentOperations::new());
    }
    m
}

fn ids(r: Result<Vec<(ElementID, &ConcurrentOperations)>, AutomergeError>) -> Vec<ElementID> {
    r.unwrap().into_iter().map(|(e, _)| e).collect()
}

#[test]
fn empty_list_has_no_elements() {
    let ops = known(vec![]);
    let f = following(vec![]);
    assert!(ids(list_ops_in_order(&ops, &f)).is_empty());
}

#[test]
fn greater_elements_come_first() {
    let ops = known(vec![elem("a", 1), elem("b", 1), elem("a", 2)]);
    let f = following(vec![(ElementID::Head, vec![elem("b", 1), elem("a", 2), elem("a", 1)])]);
    assert_eq!(
        ids(list_ops_in_order(&ops, &f)),
        vec![elem("a", 2), elem("b", 1), elem("a", 1)]
    );
}

#[test]
fn element_is_followed_by_what_was_inserted_after_it() {
    let ops = known(vec![elem("a", 1), elem("a", 2), elem("a", 3), elem("a", 4), elem("a", 5)]);
    let f = following(vec![
        (ElementID::Head, vec![elem("a", 1), elem("a", 4)]),
        (elem("a", 1), vec![elem("a", 2), elem("a", 3)]),
        (elem("a", 4), vec![elem("a", 5)]),
    ]);
    assert_eq!(
        ids(list_ops_in_order(&ops, &f)),
        vec![elem("a", 4), elem("a", 5), elem("a", 1), elem("a", 3), elem("a", 2)]
    );
}

#[test]
fn order_of_arrival_does_not_matter() {
    let all = vec![elem("a", 1), elem("b", 2), elem("c", 3)];
    let ops = known(all.clone());
    let f = following(vec![(ElementID::Head, all.clone())]);
    let mut back = all;
    back.reverse();
    let g = following(vec![(ElementID::Head, back)]);
    assert_eq!(ids(list_ops_in_order(&ops, &f)), ids(list_ops_in_order(&ops, &g)));
}

#[test]
fn element_of_which_nothing_is_known_is_an_error() {
    let ops = known(vec![elem("a", 2)]);
    let f = following(vec![(ElementID::Head, vec![elem("a", 2), elem("say \"x\"", 1)])]);
    let r = list_ops_in_order(&ops, &f);
    assert_eq!(
        r.err(),
        Some(AutomergeError::InvalidChange(
            "Missing element ID SpecificElementID(ActorID(\"say \\\"x\\\"\"), 1) when interpreting list ops"
                .to_string()
        ))
    );
}

#[test]
fn new_list_is_reported() {
    let mut m = OpSet::init();
    let ops = vec![
        make(),
        insert(ElementID::Head, 1),
        put("a:1", 5),
        insert(elem("a", 1), 2),
    ];
    let r = m.apply_change(change("a", 1, &Clock::empty(), ops), false);
    // The first counter is told by the element itself, the second is not.
    assert_eq!(r, Ok(vec![created(), inserted(0, 5, elem("a", 1)), largest(2)]));
    assert_eq!(order(&m), vec![elem("a", 1), elem("a", 2)]);
}

#[test]
fn only_the_last_of_several_counters_is_reported() {
    let mut m = OpSet::init();
    let ops = vec![
        make(),
        insert(ElementID::Head, 1),
        insert(ElementID::Head, 2),
        insert(ElementID::Head, 3),
    ];
    let r = m.apply_change(change("a", 1, &Clock::empty(), ops), false);
    assert_eq!(r, Ok(vec![created(), largest(3)]));
}

#[test]
fn counter_of_zero_is_not_reported() {
    let mut m = OpSet::init();
    let r = m.apply_change(
        change("a", 1, &Clock::empty(), vec![make(), insert(ElementID::Head, 0)]),
        false,
    );
    assert_eq!(r, Ok(vec![created()]));
}

#[test]
fn largest_counter_never_goes_down() {
    let mut m = OpSet::init();
    m.apply_change(change("a", 1, &Clock::empty(), vec![make(), insert(ElementID::Head, 7)]), false)
        .unwrap();
    let r = m.apply_change(
        change("a", 2, &Clock::empty(), vec![insert(ElementID::Head, 3)]),
        false,
    );
    assert_eq!(r, Ok(vec![largest(7)]));
    assert_eq!(state(&m).max_elem, 7);
}

#[test]
fn further_values_are_reported_on_the_first_element_shown() {
    let mut m = OpSet::init();
    let ops = vec![
        make(),
        insert(ElementID::Head, 1),
        insert(elem("a", 1), 2),
        put("a:1", 5),
    ];
    m.apply_change(change("a", 1, &Clock::empty(), ops), false).unwrap();
    let r = m.apply_change(change("a", 2, &Clock::empty(), vec![put("a:2", 6)]), false);
    let shown = plain(DiffAction::SetSequenceElement(
        list(),
        SequenceType::List,
        0,
        number(5),
        None,
    ));
    assert_eq!(r, Ok(vec![shown]));
    let r = m.apply_change(change("a", 3, &Clock::empty(), vec![delete("a:1")]), false);
    let next = plain(DiffAction::SetSequenceElement(
        list(),
        SequenceType::List,
        0,
        number(6),
        None,
    ));
    assert_eq!(r, Ok(vec![next]));
    let r = m.apply_change(change("a", 4, &Clock::empty(), vec![delete("a:2")]), false);
    let gone = plain(DiffAction::RemoveSequenceElement(list(), SequenceType::List, 0));
    assert_eq!(r, Ok(vec![gone]));
    // Nothing was shown, and nothing is.
    let r = m.apply_change(change("a", 5, &Clock::empty(), vec![delete("a:2")]), false);
    assert_eq!(r, Ok(vec![]));
}

#[test]
fn whole_list_is_made_from_its_end() {
    let mut m = OpSet::init();
    let ops = vec![
        make(),
        insert(ElementID::Head, 1),
        insert(elem("a", 1), 2),
        insert(elem("a", 2), 3),
        put("a:1", 10),
        put("a:2", 20),
        put("a:3", 30),
    ];
    m.apply_change(change("a", 1, &Clock::empty(), ops), false).unwrap();
    m.apply_change(change("a", 2, &Clock::empty(), vec![delete("a:2")]), false).unwrap();
    assert_eq!(
        state(&m).generate_diffs(),
        vec![
            created(),
            inserted(0, 30, elem("a", 3)),
            inserted(1, 10, elem("a", 1)),
            largest(3),
        ]
    );
}

#[test]
fn insertion_keeps_the_order_of_the_others() {
    let mut m = OpSet::init();
    let ops = vec![
        make(),
        insert(ElementID::Head, 1),
        insert(elem("a", 1), 2),
        insert(elem("a", 1), 3),
    ];
    m.apply_change(change("a", 1, &Clock::empty(), ops), false).unwrap();
    assert_eq!(order(&m), vec![elem("a", 1), elem("a", 3), elem("a", 2)]);
    let deps = m.clock.clone();
    m.apply_change(change("b", 1, &deps, vec![insert(elem("a", 3), 4)]), false).unwrap();
    assert_eq!(order(&m), vec![elem("a", 1), elem("a", 3), elem("b", 4), elem("a", 2)]);
}

#[test]
fn concurrent_insertions_end_in_the_same_order() {
    let start = change("a", 1, &Clock::empty(), vec![make(), insert(ElementID::Head, 1)]);
    let mut base = OpSet::init();
    base.apply_change(start, false).unwrap();
    let deps = base.clock.clone();
    let one = change("b", 1, &deps, vec![insert(elem("a", 1), 2), put("b:2", 1)]);
    let two = change("c", 1, &deps, vec![insert(elem("a", 1), 2), put("c:2", 2)]);
    let mut m = base.clone();
    m.apply_change(one.clone(), false).unwrap();
    m.apply_change(two.clone(), false).unwrap();
    let mut n = base;
    n.apply_change(two, false).unwrap();
    n.apply_change(one, false).unwrap();
    assert_eq!(order(&m), vec![elem("a", 1), elem("c", 2), elem("b", 2)]);
    assert_eq!(order(&n), order(&m));
    assert_eq!(state(&m).generate_diffs(), state(&n).generate_diffs());
    assert!(m.clock == n.clock);
}

#[test]
fn element_cannot_be_inserted_twice() {
    let mut m = OpSet::init();
    m.apply_change(change("a", 1, &Clock::empty(), vec![make(), insert(ElementID::Head, 1)]), false)
        .unwrap();
    let r = m.apply_change(
        change("a", 2, &Clock::empty(), vec![insert(ElementID::Head, 1)]),
        false,
    );
    assert_eq!(
        r,
        Err(AutomergeError::InvalidChange(
            "Received an insertion for already present key: SpecificElementID(ActorID(\"a\"), 1)"
                .to_string()
        ))
    );
}

#[test]
fn key_that_names_no_element_is_refused() {
    let mut m = OpSet::init();
    let r = m.apply_change(change("a", 1, &Clock::empty(), vec![make(), put("a\t1", 5)]), false);
    assert_eq!(
        r,
        Err(AutomergeError::InvalidChange(
            "Attempted to link, set, delete, or increment an object in a list with invalid element ID \"a\\t1\""
                .to_string()
        ))
    );
    assert_eq!(
        names_no_element("KEY"),
        AutomergeError::InvalidChange(
            "Attempted to link, set, delete, or increment an object in a list with invalid element ID KEY"
                .to_string()
        )
    );
}

#[test]
fn insertion_into_a_map_is_refused() {
    let mut m = OpSet::init();
    let ops = vec![
        Operation::MakeMap { object_id: list() },
        insert(elem("b", 2), 1),
    ];
    let r = m.apply_change(change("a", 1, &Clock::empty(), ops), false);
    assert_eq!(
        r,
        Err(AutomergeError::InvalidChange(
            "Insert operation received for object key (object ID: ID(\"list\"), key: SpecificElementID(ActorID(\"b\"), 2)"
                .to_string()
        ))
    );
    let op = Operation::Insert { list_id: ObjectID::Root, key: ElementID::Head, elem: 1 };
    let r = m.apply_change(change("b", 1, &Clock::empty(), vec![op]), false);
    assert_eq!(
        r,
        Err(AutomergeError::InvalidChange(
            "Insert operation received for object key (object ID: Root, key: Head".to_string()
        ))
    );
}

#[test]
fn refused_operation_leaves_the_store_as_it_was() {
    let mut store = ObjectStore::new();
    let states = ActorStates::new();
    let at = |operation: Operation| OperationWithMetadata {
        sequence: 1,
        actor_id: actor("a"),
        operation,
    };
    store.apply_operation(&states, at(make())).unwrap();
    store.apply_operation(&states, at(insert(ElementID::Head, 1))).unwrap();
    let before = store.clone();
    assert!(store.apply_operation(&states, at(put("nonsense", 1))).is_err());
    assert!(store.apply_operation(&states, at(insert(ElementID::Head, 1))).is_err());
    assert!(store == before);
    let (diff, undo) = store.apply_operation(&states, at(put("a:1", 1))).unwrap();
    assert_eq!(diff, Some(inserted(0, 1, elem("a", 1))));
    assert_eq!(undo, vec![delete("a:1")]);
    assert!(store != before);
}

#[test]
fn values_are_shown_as_insertions() {
    let t = SequenceType::Text;
    assert_eq!(
        list_op_to_assign_diff(&put("a:1", 5), &t, 9),
        Some(DiffAction::InsertSequenceElement(list(), t, 9, number(5), None, elem("a", 1)))
    );
    assert_eq!(list_op_to_assign_diff(&put("a", 5), &t, 9), None);
    assert_eq!(list_op_to_assign_diff(&delete("a:1"), &t, 9), None);
    let link = Operation::Link {
        object_id: list(),
        key: Key("_head".to_string()),
        value: ObjectID::Root,
    };
    assert_eq!(
        list_op_to_assign_diff(&link, &t, 0),
        Some(DiffAction::InsertSequenceElement(
            list(),
            t,
            0,
            ElementValue::Link(ObjectID::Root),
            None,
            ElementID::Head,
        ))
    );
}

#[test]
fn list_state_takes_operations_in() {
    let states = ActorStates::new();
    let mut l = ListState::new(SequenceType::Text, list());
    assert_eq!(
        l.add_insertion(&actor("a"), &ElementID::Head, 4),
        Ok(plain(DiffAction::MaxElem(list(), 4, SequenceType::Text)))
    );
    assert!(l.add_insertion(&actor("a"), &ElementID::Head, 4).is_err());
    let op = OperationWithMetadata { sequence: 1, actor_id: actor("a"), operation: put("a:4", 2) };
    let (diff, undo) = l.handle_mutating_op(op, &states, &Key("a:4".to_string())).unwrap();
    assert_eq!(
        diff,
        Some(plain(DiffAction::InsertSequenceElement(
            list(),
            SequenceType::Text,
            0,
            number(2),
            None,
            elem("a", 4),
        )))
    );
    assert_eq!(undo, vec![delete("a:4")]);
    assert_eq!(l.generate_diffs().len(), 3);
}

#[test]
fn list_keeps_account_of_its_insertions() {
    let mut l = ListState::new(SequenceType::List, list());
    assert_eq!(l.max_elem, 0);
    l.add_insertion(&actor("a"), &ElementID::Head, 4).unwrap();
    l.add_insertion(&actor("b"), &elem("a", 4), 2).unwrap();
    l.add_insertion(&actor("b"), &elem("z", 9), 3).unwrap();
    assert!(l.add_insertion(&actor("a"), &elem("b", 2), 4).is_err());
    let value = OperationWithMetadata {
        sequence: 1,
        actor_id: actor("a"),
        operation: put("c:7", 5),
    };
    l.handle_mutating_op(value, &ActorStates::new(), &Key("c:7".to_string())).unwrap();
    assert_eq!(l.max_elem, 4);
    for e in [elem("a", 4), elem("b", 2), elem("b", 3)] {
        assert_eq!(l.insertions.get(&e), Some(&e));
        assert!(l.operations_by_elemid.get(&e).is_some());
    }
    // An operation on an element that was not inserted inserts nothing.
    assert!(l.insertions.get(&elem("c", 7)).is_none());
    assert_eq!(l.following.get(&ElementID::Head), Some(&vec![elem("a", 4)]));
    assert_eq!(l.following.get(&elem("a", 4)), Some(&vec![elem("b", 2)]));
    assert_eq!(l.following.get(&elem("z", 9)), Some(&vec![elem("b", 3)]));
    assert_eq!(
        ids(list_ops_in_order(&l.operations_by_elemid, &l.following)),
        vec![elem("a", 4), elem("b", 2)]
    );
}

#[test]
fn what_is_under_an_element_stands_before_its_smaller_siblings() {
    let ops = known(vec![
        elem("a", 1),
        elem("a", 2),
        elem("a", 3),
        elem("a", 4),
        elem("a", 5),
        elem("a", 6),
    ]);
    // 3 is under 5, and 6 under 3; 4 is a smaller sibling of 5.
    let f = following(vec![
        (ElementID::Head, vec![elem("a", 1)]),
        (elem("a", 1), vec![elem("a", 4), elem("a", 5), elem("a", 2)]),
        (elem("a", 5), vec![elem("a", 3)]),
        (elem("a", 3), vec![elem("a", 6)]),
    ]);
    assert_eq!(
        ids(list_ops_in_order(&ops, &f)),
        vec![
            elem("a", 1),
            elem("a", 5),
            elem("a", 3),
            elem("a", 6),
            elem("a", 4),
            elem("a", 2),
        ]
    );
}
