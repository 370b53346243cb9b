use automerge_frontend::diffable_sequence::{DiffableSequence, UpdatingSequenceElement};
use automerge_frontend::grapheme::is_single_grapheme;
use automerge_frontend::multivalue::{DiffableValue, MultiGrapheme, MultiValue, StateTreeValue};
use automerge_frontend::mutation::{LocalChange, MutableDocument, MutationTracker};
use automerge_frontend::patch::ObjectDiff;
use automerge_frontend::protocol::{
    ActorId, Diff, DiffEdit, ElementId, InvalidPatch, Key, MapType, ObjType, ObjectId, Op, OpId, OpType,
    ScalarValue, SeqType,
};
use automerge_frontend::resolved_path::{condense_insert_ops, prim_from_op_action, SetOrInsertPayload, Target, TargetMut};
use automerge_frontend::state_tree::StateTree;
use automerge_frontend::value::{InvalidChangeRequest, Path, Value};

fn actor(label: &str) -> ActorId {
    ActorId::new(label.to_string())
}

fn num(i: i64) -> Value {
    Value::Primitive(ScalarValue::Int(i))
}

fn text(s: &str) -> Value {
    Value::Primitive(ScalarValue::Str(s.to_string()))
}

fn root_key(k: &str) -> Path {
    Path::root().key(k.to_string())
}

fn map_of(entries: Vec<(&str, Value)>) -> Value {
    Value::Object(entries.into_iter().map(|(k, v)| (k.to_string(), v)).collect(), MapType::Plain)
}

fn is_opid(o: &OpId, counter: u64, label: &str) -> bool {
    o.counter == counter && o.actor.label == label
}

fn prop_key(op: &Op) -> String {
    match &op.key {
        Key::Prop(k) => k.clone(),
        Key::Elem(_) => panic!("expected a map key"),
    }
}

fn root_entries(tree: &StateTree) -> Vec<(String, Value)> {
    match tree.value() {
        Value::Object(entries, MapType::Plain) => entries,
        _ => panic!("the root is a map"),
    }
}

fn entry<'a>(entries: &'a [(String, Value)], k: &str) -> &'a Value {
    &entries.iter().find(|(key, _)| key == k).expect("key present").1
}

/// One session on `tree` with max_op `max_op`, applying `changes`.
fn session(tree: StateTree, max_op: u64, changes: Vec<LocalChange>) -> MutationTracker {
    let mut tracker = MutationTracker::new(tree, max_op, actor("A"));
    for c in changes {
        assert!(tracker.add_change(c).is_ok());
    }
    tracker
}

#[test]
fn set_root_map_on_empty_doc() {
    let tracker = session(StateTree::new(), 0, vec![LocalChange::set(Path::root(), map_of(vec![("a", num(1))]))]);
    assert_eq!(tracker.ops.len(), 1);
    let op = &tracker.ops[0];
    assert!(matches!(op.action, OpType::SetScalar(ScalarValue::Int(1))));
    assert!(matches!(op.obj, ObjectId::Root));
    assert_eq!(prop_key(op), "a");
    assert!(!op.insert);
    assert!(op.pred.is_empty());
    assert_eq!(tracker.max_op, 1);
    let entries = root_entries(&tracker.state);
    assert_eq!(entries.len(), 1);
    assert!(matches!(entry(&entries, "a"), Value::Primitive(ScalarValue::Int(1))));
}

#[test]
fn overwrite_records_pred() {
    let first = session(StateTree::new(), 0, vec![LocalChange::set(Path::root(), map_of(vec![("a", num(1))]))]);
    let max_op = first.max_op;
    let second = session(first.into_state(), max_op, vec![LocalChange::set(root_key("a"), num(2))]);
    assert_eq!(second.ops.len(), 1);
    let op = &second.ops[0];
    assert!(matches!(op.action, OpType::SetScalar(ScalarValue::Int(2))));
    assert!(matches!(op.obj, ObjectId::Root));
    assert_eq!(prop_key(op), "a");
    assert_eq!(op.pred.len(), 1);
    assert!(is_opid(&op.pred[0], 1, "A"));
    let entries = root_entries(&second.state);
    assert!(matches!(entry(&entries, "a"), Value::Primitive(ScalarValue::Int(2))));
}

#[test]
fn insert_many_condenses_into_multiset() {
    let first = session(
        StateTree::new(),
        0,
        vec![LocalChange::set(root_key("list"), Value::Sequence(Vec::new(), SeqType::List))],
    );
    let max_op = first.max_op;
    let letters = ["h", "e", "l", "l", "o"].iter().map(|s| text(s)).collect();
    let second = session(first.into_state(), max_op, vec![LocalChange::insert_many(root_key("list").index(0), letters)]);
    assert_eq!(second.ops.len(), 1);
    let op = &second.ops[0];
    match &op.action {
        OpType::MultiSet(vals) => {
            let strs: Vec<String> = vals
                .iter()
                .map(|v| match v {
                    ScalarValue::Str(s) => s.clone(),
                    _ => panic!("a string"),
                })
                .collect();
            assert_eq!(strs, vec!["h", "e", "l", "l", "o"]);
        },
        _ => panic!("expected a MultiSet"),
    }
    assert!(matches!(op.key, Key::Elem(ElementId::Head)));
    assert!(op.insert);
    assert!(op.pred.is_empty());
    assert_eq!(second.max_op, max_op + 5);
    match entry(&root_entries(&second.state), "list") {
        Value::Sequence(items, SeqType::List) => assert_eq!(items.len(), 5),
        _ => panic!("a list"),
    }
}

#[test]
fn increment_counter() {
    let first = session(
        StateTree::new(),
        0,
        vec![LocalChange::set(root_key("counter"), Value::Primitive(ScalarValue::Counter(10)))],
    );
    let max_op = first.max_op;
    let second = session(first.into_state(), max_op, vec![LocalChange::increment_by(root_key("counter"), 3)]);
    assert_eq!(second.ops.len(), 1);
    let op = &second.ops[0];
    assert!(matches!(op.action, OpType::Inc(3)));
    assert_eq!(op.pred.len(), 1);
    assert!(is_opid(&op.pred[0], 1, "A"));
    assert!(matches!(entry(&root_entries(&second.state), "counter"), Value::Primitive(ScalarValue::Counter(13))));
}

#[test]
fn patch_insert_then_update_same_index() {
    let mut seq: DiffableSequence<MultiValue> = DiffableSequence::new();
    let a = actor("A");
    let b = actor("B");
    let edits = vec![
        DiffEdit::MultiElementInsert {
            index: 0,
            elem_id: ElementId::Id(OpId::new(5, &a)),
            values: vec![ScalarValue::Str("x".to_string()), ScalarValue::Str("y".to_string())],
        },
        DiffEdit::Update { index: 1, op_id: OpId::new(7, &b), value: Diff::Value(ScalarValue::Str("Y".to_string())) },
    ];
    assert!(seq.apply_diff(&ObjectId::Root, &edits).is_ok());
    assert_eq!(seq.len(), 2);
    for (_, e) in seq.underlying.iter() {
        assert!(matches!(e, UpdatingSequenceElement::Original(_)));
    }
    let (id0, first) = seq.get(0);
    assert!(is_opid(id0, 5, "A"));
    assert_eq!(first.entries.len(), 1);
    assert!(matches!(&first.entries[0].1, StateTreeValue::Leaf(ScalarValue::Str(s)) if s == "x"));
    let (id1, second) = seq.get(1);
    assert!(is_opid(id1, 6, "A"));
    assert_eq!(second.entries.len(), 2);
    assert!(is_opid(&second.entries[0].0, 6, "A"));
    assert!(matches!(&second.entries[0].1, StateTreeValue::Leaf(ScalarValue::Str(s)) if s == "y"));
    assert!(is_opid(&second.entries[1].0, 7, "B"));
    assert!(matches!(&second.entries[1].1, StateTreeValue::Leaf(ScalarValue::Str(s)) if s == "Y"));
    assert!(is_opid(&DiffableValue::default_opid(second), 7, "B"));
    assert!(matches!(second.default_statetree_value(), StateTreeValue::Leaf(ScalarValue::Str(s)) if s == "Y"));
}

#[test]
fn delete_root_is_refused() {
    let mut tracker = session(StateTree::new(), 0, vec![LocalChange::set(root_key("a"), num(1))]);
    let before = tracker.ops.len();
    let r = tracker.add_change(LocalChange::delete(Path::root()));
    assert!(matches!(r, Err(InvalidChangeRequest::CannotDeleteRootObject)));
    assert_eq!(tracker.ops.len(), before);
    assert_eq!(tracker.max_op, 1);
    assert_eq!(root_entries(&tracker.state).len(), 1);
}

fn text_doc() -> MutationTracker {
    let chars = vec![text("a"), text("b")];
    session(StateTree::new(), 0, vec![LocalChange::set(root_key("t"), Value::Sequence(chars, SeqType::Text))])
}

#[test]
fn text_set_takes_one_grapheme() {
    let mut tracker = text_doc();
    let r = tracker.add_change(LocalChange::set(root_key("t").index(0), text("xy")));
    assert!(matches!(r, Err(InvalidChangeRequest::InsertNonTextInTextObject { .. })));
    let r = tracker.add_change(LocalChange::set(root_key("t").index(0), num(1)));
    assert!(matches!(r, Err(InvalidChangeRequest::InsertNonTextInTextObject { .. })));
    let r = tracker.add_change(LocalChange::set(root_key("t").index(0), text("e\u{301}")));
    assert!(r.is_ok());
    match entry(&root_entries(&tracker.state), "t") {
        Value::Sequence(items, SeqType::Text) => {
            assert_eq!(items.len(), 2);
            assert!(matches!(&items[0], Value::Primitive(ScalarValue::Str(s)) if s == "e\u{301}"));
        },
        _ => panic!("a text"),
    }
}

#[test]
fn text_insert_many_is_one_op() {
    let mut tracker = text_doc();
    let before = tracker.ops.len();
    let r = tracker.add_change(LocalChange::insert_many(root_key("t").index(2), vec![text("c"), text("d")]));
    assert!(r.is_ok());
    assert_eq!(tracker.ops.len(), before + 1);
    let op = &tracker.ops[before];
    assert!(matches!(&op.action, OpType::MultiSet(v) if v.len() == 2));
    assert!(matches!(&op.key, Key::Elem(ElementId::Id(o)) if o.counter == 3));
    let r = tracker.add_change(LocalChange::insert(root_key("t").index(0), text("ab")));
    assert!(matches!(r, Err(InvalidChangeRequest::InsertNonTextInTextObject { .. })));
}

#[test]
fn counter_in_run_prevents_condensing() {
    let first = session(
        StateTree::new(),
        0,
        vec![LocalChange::set(root_key("list"), Value::Sequence(Vec::new(), SeqType::List))],
    );
    let values = vec![num(1), Value::Primitive(ScalarValue::Counter(2)), num(3)];
    let second = session(first.into_state(), 1, vec![LocalChange::insert_many(root_key("list").index(0), values)]);
    assert_eq!(second.ops.len(), 3);
    assert!(matches!(second.ops[0].key, Key::Elem(ElementId::Head)));
    assert!(matches!(&second.ops[1].key, Key::Elem(ElementId::Id(o)) if o.counter == 2));
    assert!(matches!(&second.ops[2].key, Key::Elem(ElementId::Id(o)) if o.counter == 3));
    assert!(second.ops.iter().all(|op| op.insert && op.pred.is_empty()));
    assert_eq!(second.max_op, 4);
}

#[test]
fn nested_map_creates_object() {
    let value = map_of(vec![("x", num(1)), ("y", text("z"))]);
    let tracker = session(StateTree::new(), 0, vec![LocalChange::set(root_key("m"), value)]);
    assert_eq!(tracker.ops.len(), 3);
    assert!(matches!(tracker.ops[0].action, OpType::Make(ObjType::MapLike(MapType::Plain))));
    assert!(matches!(&tracker.ops[1].obj, ObjectId::Id(o) if o.counter == 1));
    assert_eq!(tracker.max_op, 3);
    match entry(&root_entries(&tracker.state), "m") {
        Value::Object(entries, MapType::Plain) => {
            assert_eq!(entries.len(), 2);
            assert!(matches!(entry(entries, "x"), Value::Primitive(ScalarValue::Int(1))));
        },
        _ => panic!("a map"),
    }
    let target = tracker.state.resolve_path(&root_key("m").key("x".to_string())).expect("resolves");
    assert!(matches!(target.target, Target::Primitive(_)));
    assert!(target.object_id().is_none());
    let map_target = tracker.state.resolve_path(&root_key("m")).expect("resolves");
    assert!(matches!(map_target.object_id(), Some(ObjectId::Id(o)) if o.counter == 1));
}

#[test]
fn delete_key_and_list_element() {
    let list = Value::Sequence(vec![num(1), num(2)], SeqType::List);
    let mut tracker = session(StateTree::new(), 0, vec![LocalChange::set(root_key("l"), list), LocalChange::set(root_key("k"), num(5))]);
    assert!(tracker.add_change(LocalChange::delete(root_key("k"))).is_ok());
    let op = tracker.ops.last().unwrap();
    assert!(matches!(op.action, OpType::Del(1)));
    assert_eq!(op.pred.len(), 1);
    assert!(is_opid(&op.pred[0], 4, "A"));
    assert!(tracker.add_change(LocalChange::delete(root_key("l").index(0))).is_ok());
    let op = tracker.ops.last().unwrap();
    assert!(matches!(&op.key, Key::Elem(ElementId::Id(o)) if o.counter == 2));
    let entries = root_entries(&tracker.state);
    assert_eq!(entries.len(), 1);
    match entry(&entries, "l") {
        Value::Sequence(items, SeqType::List) => {
            assert_eq!(items.len(), 1);
            assert!(matches!(items[0], Value::Primitive(ScalarValue::Int(2))));
        },
        _ => panic!("a list"),
    }
    let r = tracker.add_change(LocalChange::delete(root_key("l").index(5)));
    assert!(matches!(r, Err(InvalidChangeRequest::MissingIndexError { index: 5 })));
}

#[test]
fn refusals_name_their_kind() {
    let mut tracker = session(
        StateTree::new(),
        0,
        vec![
            LocalChange::set(root_key("c"), Value::Primitive(ScalarValue::Counter(0))),
            LocalChange::set(root_key("n"), num(1)),
            LocalChange::set(root_key("l"), Value::Sequence(Vec::new(), SeqType::List)),
        ],
    );
    let r = tracker.add_change(LocalChange::set(root_key("c"), num(1)));
    assert!(matches!(r, Err(InvalidChangeRequest::CannotOverwriteCounter { .. })));
    let r = tracker.add_change(LocalChange::set(Path::root(), num(1)));
    assert!(matches!(r, Err(InvalidChangeRequest::CannotSetNonMapObjectAsRoot { .. })));
    let r = tracker.add_change(LocalChange::set(root_key("missing").key("x".to_string()), num(1)));
    assert!(matches!(r, Err(InvalidChangeRequest::NoSuchPathError { .. })));
    let r = tracker.add_change(LocalChange::set(root_key("n").index(0), num(1)));
    assert!(matches!(r, Err(InvalidChangeRequest::InsertWithNonSequencePath { .. })));
    let r = tracker.add_change(LocalChange::increment(root_key("n")));
    assert!(matches!(r, Err(InvalidChangeRequest::IncrementForNonCounterObject { .. })));
    let r = tracker.add_change(LocalChange::increment(root_key("missing")));
    assert!(matches!(r, Err(InvalidChangeRequest::NoSuchPathError { .. })));
    let r = tracker.add_change(LocalChange::insert(root_key("l").key("x".to_string()), num(1)));
    assert!(matches!(r, Err(InvalidChangeRequest::InsertWithNonSequencePath { .. })));
    let r = tracker.add_change(LocalChange::insert(root_key("missing").index(0), num(1)));
    assert!(matches!(r, Err(InvalidChangeRequest::InsertForNonSequenceObject { .. })));
    let r = tracker.add_change(LocalChange::insert(root_key("l").index(1), num(1)));
    assert!(matches!(r, Err(InvalidChangeRequest::MissingIndexError { index: 1 })));
    let r = tracker.add_change(LocalChange::set(root_key("l").index(0), num(1)));
    assert!(matches!(r, Err(InvalidChangeRequest::MissingIndexError { index: 0 })));
    assert_eq!(tracker.ops.len(), 3);
    assert_eq!(tracker.max_op, 3);
}

#[test]
fn opid_order_is_lamport() {
    let a = actor("A");
    let b = actor("B");
    assert!(OpId::new(1, &b).less_than(&OpId::new(2, &a)));
    assert!(OpId::new(2, &a).less_than(&OpId::new(2, &b)));
    assert!(!OpId::new(2, &b).less_than(&OpId::new(2, &a)));
    assert!(!OpId::new(2, &a).less_than(&OpId::new(2, &a)));
    assert!(actor("ab").less_than(&actor("b")));
    assert!(actor("a").less_than(&actor("ab")));
    let o = OpId::new(5, &a).increment_by(3);
    assert_eq!(o.counter, 8);
}

#[test]
fn multivalue_merge_keeps_greatest_default() {
    let a = actor("A");
    let b = actor("B");
    let mut mv = MultiValue::new_single(OpId::new(3, &b), StateTreeValue::Leaf(ScalarValue::Int(1)));
    let other = MultiValue::new_single(OpId::new(3, &a), StateTreeValue::Leaf(ScalarValue::Int(2)));
    mv.add_values_from(other);
    assert_eq!(mv.entries.len(), 2);
    assert!(is_opid(&mv.default_opid(), 3, "B"));
    let again = MultiValue::new_single(OpId::new(3, &a), StateTreeValue::Leaf(ScalarValue::Int(9)));
    mv.add_values_from(again);
    assert_eq!(mv.entries.len(), 2);
    assert!(matches!(mv.entries[1].1, StateTreeValue::Leaf(ScalarValue::Int(9))));
    assert!(mv.only_for_opid(&OpId::new(3, &a)).is_some());
    assert!(mv.only_for_opid(&OpId::new(4, &a)).is_none());
    assert_eq!(mv.opids().len(), 2);
}

#[test]
fn condense_only_plain_scalars() {
    let mk = |v: ScalarValue| Op { action: OpType::SetScalar(v), obj: ObjectId::Root, key: Key::Elem(ElementId::Head), insert: true, pred: Vec::new() };
    let r = condense_insert_ops(vec![mk(ScalarValue::Int(1)), mk(ScalarValue::Boolean(true))]);
    assert_eq!(r.len(), 1);
    assert!(matches!(&r[0].action, OpType::MultiSet(v) if v.len() == 2));
    let r = condense_insert_ops(vec![mk(ScalarValue::Int(1)), mk(ScalarValue::Timestamp(4))]);
    assert_eq!(r.len(), 2);
    let r = condense_insert_ops(vec![mk(ScalarValue::Null)]);
    assert_eq!(r.len(), 1);
    assert!(matches!(r[0].action, OpType::SetScalar(ScalarValue::Null)));
    assert!(prim_from_op_action(&OpType::SetScalar(ScalarValue::Counter(1))).is_none());
    assert!(prim_from_op_action(&OpType::Inc(1)).is_none());
    assert!(matches!(prim_from_op_action(&OpType::SetScalar(ScalarValue::Uint(7))), Some(ScalarValue::Uint(7))));
}

#[test]
fn patch_remove_and_bad_index() {
    let a = actor("A");
    let mut seq: DiffableSequence<MultiValue> = DiffableSequence::new();
    let insert = DiffEdit::MultiElementInsert {
        index: 0,
        elem_id: ElementId::Id(OpId::new(1, &a)),
        values: vec![ScalarValue::Int(1), ScalarValue::Int(2), ScalarValue::Int(3)],
    };
    assert!(seq.apply_diff(&ObjectId::Root, &vec![insert]).is_ok());
    assert!(seq.apply_diff(&ObjectId::Root, &vec![DiffEdit::Remove { index: 0, count: 2 }]).is_ok());
    assert_eq!(seq.len(), 1);
    assert!(is_opid(seq.get(0).0, 3, "A"));
    let r = seq.apply_diff(&ObjectId::Root, &vec![DiffEdit::Remove { index: 1, count: 1 }]);
    assert!(matches!(r, Err(InvalidPatch::InvalidIndex { index: 1, .. })));
    let mut seq2: DiffableSequence<MultiValue> = DiffableSequence::new();
    let r = seq2.apply_diff(
        &ObjectId::Root,
        &vec![DiffEdit::Update { index: 0, op_id: OpId::new(1, &a), value: Diff::Value(ScalarValue::Null) }],
    );
    assert!(matches!(r, Err(InvalidPatch::InvalidIndex { index: 0, .. })));
    let r = seq2.apply_diff(
        &ObjectId::Root,
        &vec![DiffEdit::SingleElementInsert {
            index: 0,
            elem_id: ElementId::Id(OpId::new(9, &a)),
            op_id: OpId::new(9, &a),
            value: Diff::Value(ScalarValue::Int(4)),
        }],
    );
    assert!(r.is_ok());
    assert!(is_opid(seq2.get(0).0, 9, "A"));
}

#[test]
fn grapheme_check_counts_clusters() {
    assert!(is_single_grapheme("a"));
    assert!(is_single_grapheme("e\u{301}"));
    assert!(!is_single_grapheme("ab"));
    assert!(!is_single_grapheme(""));
}

#[test]
fn paths_and_cursors() {
    let p = root_key("a").index(3);
    assert_eq!(p.elements.len(), 2);
    assert_eq!(p.parent().elements.len(), 1);
    assert!(Path::root().name().is_none());
    let tracker = text_doc();
    let c = tracker.cursor_to_path(&root_key("t").index(1)).expect("a cursor");
    assert_eq!(c.index, 1);
    assert!(matches!(&c.elem_id, ElementId::Id(o) if o.counter == 3));
    assert!(tracker.cursor_to_path(&root_key("t").index(7)).is_none());
    let v = tracker.value_at_path(&root_key("t").index(0)).expect("a value");
    assert!(matches!(v, Value::Primitive(ScalarValue::Str(s)) if s == "a"));
}

#[test]
fn keys_from_strings() {
    assert!(matches!(Key::from_string("_head".to_string()), Key::Elem(ElementId::Head)));
    match Key::from_string("12@alice".to_string()) {
        Key::Elem(ElementId::Id(o)) => {
            assert_eq!(o.counter, 12);
            assert_eq!(o.actor.label, "alice");
        },
        _ => panic!("a sequence key"),
    }
    assert!(matches!(Key::from_string("title".to_string()), Key::Prop(s) if s == "title"));
    assert!(matches!(Key::from_string("@a".to_string()), Key::Prop(_)));
    assert!(matches!(Key::from_string("12@".to_string()), Key::Prop(_)));
    assert!(matches!(Key::from_string("1x@a".to_string()), Key::Prop(_)));
    assert!(matches!(Key::from_string("99999999999999999999@a".to_string()), Key::Prop(_)));
    assert!(matches!(ElementId::parse("18446744073709551615@a"), Some(ElementId::Id(o)) if o.counter == u64::MAX));
}

fn same_value(a: &Value, b: &Value) -> bool {
    match (a, b) {
        (Value::Primitive(x), Value::Primitive(y)) => same_scalar(x, y),
        (Value::Object(xs, mx), Value::Object(ys, my)) => {
            mx == my
                && xs.len() == ys.len()
                && xs.iter().all(|(k, v)| ys.iter().any(|(k2, v2)| k == k2 && same_value(v, v2)))
        },
        (Value::Sequence(xs, tx), Value::Sequence(ys, ty)) => {
            tx == ty && xs.len() == ys.len() && xs.iter().zip(ys.iter()).all(|(x, y)| same_value(x, y))
        },
        _ => false,
    }
}

fn same_scalar(a: &ScalarValue, b: &ScalarValue) -> bool {
    match (a, b) {
        (ScalarValue::Str(x), ScalarValue::Str(y)) => x == y,
        (ScalarValue::Int(x), ScalarValue::Int(y)) => x == y,
        (ScalarValue::Uint(x), ScalarValue::Uint(y)) => x == y,
        (ScalarValue::Boolean(x), ScalarValue::Boolean(y)) => x == y,
        (ScalarValue::Null, ScalarValue::Null) => true,
        (ScalarValue::Counter(x), ScalarValue::Counter(y)) => x == y,
        (ScalarValue::Timestamp(x), ScalarValue::Timestamp(y)) => x == y,
        _ => false,
    }
}

#[test]
fn patch_props_links_and_conflicts() {
    let a = actor("A");
    let b = actor("B");
    let list_id = OpId::new(1, &a);
    let mut tree = StateTree::new();
    let diffs = vec![
        (
            ObjectId::Root,
            ObjectDiff::Props(
                MapType::Plain,
                vec![
                    (
                        "list".to_string(),
                        vec![(OpId::new(1, &a), Diff::Object(ObjType::Sequence(SeqType::List), ObjectId::Id(list_id.copy())))],
                    ),
                    (
                        "k".to_string(),
                        vec![(OpId::new(2, &b), Diff::Value(ScalarValue::Int(5))), (OpId::new(2, &a), Diff::Value(ScalarValue::Int(4)))],
                    ),
                ],
            ),
        ),
        (
            ObjectId::Id(list_id.copy()),
            ObjectDiff::Edits(
                SeqType::List,
                vec![DiffEdit::MultiElementInsert {
                    index: 0,
                    elem_id: ElementId::Id(OpId::new(3, &a)),
                    values: vec![ScalarValue::Int(1), ScalarValue::Int(2)],
                }],
            ),
        ),
    ];
    assert!(tree.apply_patch(&diffs).is_ok());
    let entries = root_entries(&tree);
    assert_eq!(entries.len(), 2);
    assert!(matches!(entry(&entries, "k"), Value::Primitive(ScalarValue::Int(5))));
    match entry(&entries, "list") {
        Value::Sequence(items, SeqType::List) => {
            assert_eq!(items.len(), 2);
            assert!(matches!(items[1], Value::Primitive(ScalarValue::Int(2))));
        },
        _ => panic!("a list"),
    }
    let k = tree.resolve_path(&root_key("k")).expect("resolves");
    assert_eq!(k.values(&tree).len(), 2);
    let delete = vec![(ObjectId::Root, ObjectDiff::Props(MapType::Plain, vec![("k".to_string(), Vec::new())]))];
    assert!(tree.apply_patch(&delete).is_ok());
    assert_eq!(root_entries(&tree).len(), 1);
    let unknown = vec![(ObjectId::Id(OpId::new(40, &a)), ObjectDiff::Edits(SeqType::List, Vec::new()))];
    assert!(matches!(tree.apply_patch(&unknown), Err(InvalidPatch::UnknownObject { .. })));
    let mismatched = vec![(ObjectId::Root, ObjectDiff::Edits(SeqType::List, Vec::new()))];
    assert!(matches!(tree.apply_patch(&mismatched), Err(InvalidPatch::MismatchedType)));
}

#[test]
fn local_changes_and_their_patch_agree() {
    let local = session(
        StateTree::new(),
        0,
        vec![LocalChange::set(
            Path::root(),
            map_of(vec![("a", num(1)), ("l", Value::Sequence(vec![text("x"), text("y")], SeqType::List))]),
        )],
    );
    let a = actor("A");
    let list_id = OpId::new(2, &a);
    let mut remote = StateTree::new();
    let diffs = vec![
        (
            ObjectId::Root,
            ObjectDiff::Props(
                MapType::Plain,
                vec![
                    ("a".to_string(), vec![(OpId::new(1, &a), Diff::Value(ScalarValue::Int(1)))]),
                    (
                        "l".to_string(),
                        vec![(list_id.copy(), Diff::Object(ObjType::Sequence(SeqType::List), ObjectId::Id(list_id.copy())))],
                    ),
                ],
            ),
        ),
        (
            ObjectId::Id(list_id.copy()),
            ObjectDiff::Edits(
                SeqType::List,
                vec![DiffEdit::MultiElementInsert {
                    index: 0,
                    elem_id: ElementId::Id(OpId::new(3, &a)),
                    values: vec![ScalarValue::Str("x".to_string()), ScalarValue::Str("y".to_string())],
                }],
            ),
        ),
    ];
    assert!(remote.apply_patch(&diffs).is_ok());
    assert!(same_value(&local.state.value(), &remote.value()));
}

#[test]
fn targets_insert_single_values() {
    let list = Value::Sequence(vec![num(1)], SeqType::List);
    let tracker = session(StateTree::new(), 0, vec![LocalChange::set(root_key("l"), list)]);
    let mut state = tracker.into_state();
    let target = state.resolve_path_mut(&root_key("l")).expect("resolves");
    match target.target {
        TargetMut::List(l) => {
            let payload = SetOrInsertPayload { start_op: 10, actor: actor("B"), value: map_of(vec![("q", num(2))]) };
            let res = l.insert(&mut state, 1, payload);
            let ops = match res {
                Ok(r) => r.new_ops,
                Err(_) => panic!("index 1 is in range"),
            };
            assert_eq!(ops.len(), 2);
            assert!(matches!(ops[0].action, OpType::Make(ObjType::MapLike(MapType::Plain))));
            assert!(matches!(&ops[0].key, Key::Elem(ElementId::Id(o)) if o.counter == 2));
            let payload = SetOrInsertPayload { start_op: 20, actor: actor("B"), value: num(3) };
            assert!(matches!(l.insert(&mut state, 9, payload), Err(InvalidChangeRequest::MissingIndexError { index: 9 })));
        },
        _ => panic!("a list target"),
    }
    match entry(&root_entries(&state), "l") {
        Value::Sequence(items, SeqType::List) => {
            assert_eq!(items.len(), 2);
            assert!(matches!(&items[1], Value::Object(e, MapType::Plain) if e.len() == 1));
        },
        _ => panic!("a list"),
    }
    let text_tracker = text_doc();
    let mut state = text_tracker.into_state();
    let target = state.resolve_path_mut(&root_key("t")).expect("resolves");
    match target.target {
        TargetMut::Text(t) => {
            let payload = SetOrInsertPayload { start_op: 30, actor: actor("B"), value: "z".to_string() };
            let res = t.insert(&mut state, 0, payload);
            let ops = match res {
                Ok(r) => r.new_ops,
                Err(_) => panic!("index 0 is in range"),
            };
            assert_eq!(ops.len(), 1);
            assert!(matches!(&ops[0].action, OpType::SetScalar(ScalarValue::Str(s)) if s == "z"));
            assert!(matches!(ops[0].key, Key::Elem(ElementId::Head)));
        },
        _ => panic!("a text target"),
    }
}

#[test]
fn sequence_from_values() {
    let a = actor("A");
    let values = vec![
        MultiValue::new_single(OpId::new(4, &a), StateTreeValue::Leaf(ScalarValue::Int(1))),
        MultiValue::new_single(OpId::new(6, &a), StateTreeValue::Leaf(ScalarValue::Int(2))),
    ];
    let seq = DiffableSequence::new_from(values);
    assert_eq!(seq.len(), 2);
    assert!(is_opid(seq.get(1).0, 6, "A"));
}

#[test]
fn session_counters_increase_to_max_op() {
    let first = session(
        StateTree::new(),
        0,
        vec![LocalChange::set(root_key("l"), Value::Sequence(Vec::new(), SeqType::List))],
    );
    let start = first.max_op;
    let tracker = session(
        first.into_state(),
        start,
        vec![
            LocalChange::insert_many(root_key("l").index(0), vec![text("a"), text("b"), text("c")]),
            LocalChange::set(root_key("m"), map_of(vec![("x", num(1))])),
            LocalChange::delete(root_key("l").index(1)),
            LocalChange::set(root_key("c"), Value::Primitive(ScalarValue::Counter(0))),
            LocalChange::increment(root_key("c")),
        ],
    );
    let mut counter = start;
    let mut last = start;
    for op in tracker.ops.iter() {
        let width = match &op.action {
            OpType::MultiSet(v) => v.len() as u64,
            _ => 1,
        };
        counter += width;
        assert!(counter > last);
        last = counter;
    }
    assert_eq!(last, tracker.max_op);
    assert_eq!(tracker.max_op, start + 3 + 2 + 1 + 1 + 1);
}

#[test]
fn failed_patch_leaves_elements_settled() {
    let a = actor("A");
    let mut seq: DiffableSequence<MultiValue> = DiffableSequence::new();
    let edits = vec![
        DiffEdit::MultiElementInsert {
            index: 0,
            elem_id: ElementId::Id(OpId::new(1, &a)),
            values: vec![ScalarValue::Int(1), ScalarValue::Int(2)],
        },
        DiffEdit::Update { index: 0, op_id: OpId::new(5, &a), value: Diff::Value(ScalarValue::Int(3)) },
        DiffEdit::Remove { index: 4, count: 1 },
    ];
    let r = seq.apply_diff(&ObjectId::Root, &edits);
    assert!(matches!(r, Err(InvalidPatch::InvalidIndex { index: 4, .. })));
    for (_, e) in seq.underlying.iter() {
        assert!(matches!(e, UpdatingSequenceElement::Original(_)));
    }
}

#[test]
fn document_trait_delegates() {
    let mut tracker = MutationTracker::new(StateTree::new(), 0, actor("A"));
    let r = MutableDocument::add_change(&mut tracker, LocalChange::set(root_key("k"), num(7)));
    assert!(r.is_ok());
    let v = MutableDocument::value_at_path(&mut tracker, &root_key("k")).expect("a value");
    assert!(matches!(v, Value::Primitive(ScalarValue::Int(7))));
    assert!(MutableDocument::cursor_to_path(&mut tracker, &root_key("k")).is_none());
    let r = MutableDocument::add_change(&mut tracker, LocalChange::increment(root_key("k")));
    assert!(matches!(r, Err(InvalidChangeRequest::IncrementForNonCounterObject { path }) if path.elements.len() == 1));
}

#[test]
fn text_patch_refuses_multi_grapheme_strings() {
    let a = actor("A");
    let mut seq: DiffableSequence<MultiGrapheme> = DiffableSequence::new();
    let ok = vec![DiffEdit::MultiElementInsert {
        index: 0,
        elem_id: ElementId::Id(OpId::new(1, &a)),
        values: vec![ScalarValue::Str("e\u{301}".to_string())],
    }];
    assert!(seq.apply_diff(&ObjectId::Root, &ok).is_ok());
    assert_eq!(seq.len(), 1);
    let bad = vec![DiffEdit::SingleElementInsert {
        index: 1,
        elem_id: ElementId::Id(OpId::new(2, &a)),
        op_id: OpId::new(2, &a),
        value: Diff::Value(ScalarValue::Str("ab".to_string())),
    }];
    assert!(matches!(seq.apply_diff(&ObjectId::Root, &bad), Err(InvalidPatch::MismatchedType)));
}

#[test]
fn primitive_set_adds_no_objects() {
    let tracker = session(StateTree::new(), 0, vec![LocalChange::set(root_key("a"), num(1))]);
    assert_eq!(tracker.state.objects.len(), 1);
    let tracker = session(tracker.into_state(), 1, vec![LocalChange::set(root_key("m"), map_of(vec![("x", num(1))]))]);
    assert_eq!(tracker.state.objects.len(), 2);
    assert!(matches!(&tracker.state.objects[1].id, ObjectId::Id(o) if o.counter == 2));
}
