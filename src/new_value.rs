//! Creating a new value in the tree: its objects and its ops.

use vstd::prelude::*;

use crate::diffable_sequence::{DiffableSequence, ElementState};
use crate::multivalue::{MultiGrapheme, MultiValue, StateTreeValue};
use crate::protocol::{ActorId, ElementId, Key, ObjType, ObjectId, Op, OpId, OpType, ScalarValue, SeqType};
use crate::state_tree::{body_wf, lemma_object_index, object_index, ObjectBody, StateObject, StateTree};
use crate::value::{entries_op_count, fits, is_grapheme_value, items_op_count, Value};

verus! {

/// The action of the first op that creating `v` takes.
pub open spec fn creation_action(v: Value) -> OpType {
    match v {
        Value::Primitive(s) => OpType::SetScalar(s),
        Value::Object(_, mt) => OpType::Make(ObjType::MapLike(mt)),
        Value::Sequence(_, st) => OpType::Make(ObjType::Sequence(st)),
    }
}

/// What the register entry for a new value holds, the value being created by
/// op `opid`.
pub open spec fn created_entry(v: Value, opid: OpId) -> StateTreeValue {
    match v {
        Value::Primitive(s) => StateTreeValue::Leaf(s),
        Value::Object(_, mt) => StateTreeValue::Composite(ObjType::MapLike(mt), ObjectId::Id(opid)),
        Value::Sequence(_, st) => StateTreeValue::Composite(ObjType::Sequence(st), ObjectId::Id(opid)),
    }
}

/// How many op ids an op stands for: one per value of a `MultiSet`, one
/// otherwise.
pub open spec fn op_width(op: Op) -> nat {
    match op.action {
        OpType::MultiSet(vs) => vs@.len(),
        _ => 1,
    }
}

/// How many op ids a run of ops stands for.
pub open spec fn ops_width(ops: Seq<Op>) -> nat
    decreases ops.len(),
{
    if ops.len() == 0 {
        0
    } else {
        ops_width(ops.drop_last()) + op_width(ops.last())
    }
}

/// The element the `t`-th item of a new sequence created by op `start` is
/// inserted after: the head for the first, the item before it otherwise.
pub open spec fn item_anchor(items: Seq<Value>, start: u64, actor: ActorId, t: int) -> ElementId {
    if t == 0 {
        ElementId::Head
    } else {
        ElementId::Id(OpId { counter: (start + 1 + items_op_count(items.take(t - 1))) as u64, actor })
    }
}

/// After the `Make` op at position `base`, the first op of each entry of a
/// new map sets that key of the new object `obj`, with no preds.
pub open spec fn entry_ops(ops: Seq<Op>, base: int, entries: Seq<(String, Value)>, obj: ObjectId) -> bool {
    forall|t: int|
        0 <= t < entries.len() ==> op_is(
            ops[base + 1 + entries_op_count(entries.take(t))],
            creation_action((#[trigger] entries[t]).1),
            obj,
            Key::Prop(entries[t].0),
            false,
            Seq::empty(),
        )
}

/// After the `Make` op at position `base`, the first op of each item of a
/// new sequence inserts it into the new object `obj` after the item before,
/// with no preds.
pub open spec fn item_ops(ops: Seq<Op>, base: int, items: Seq<Value>, obj: ObjectId, start: u64, actor: ActorId) -> bool {
    forall|t: int|
        0 <= t < items.len() ==> op_is(
            ops[base + 1 + items_op_count(items.take(t))],
            creation_action(#[trigger] items[t]),
            obj,
            Key::Elem(item_anchor(items, start, actor, t)),
            true,
            Seq::empty(),
        )
}

pub proof fn lemma_entries_take_mono(es: Seq<(String, Value)>, t: int, j: int)
    requires
        0 <= t < j <= es.len(),
    ensures
        entries_op_count(es.take(t)) < entries_op_count(es.take(j)),
    decreases j - t,
{
    lemma_entries_prefix(es, j - 1);
    lemma_op_count_pos(es[j - 1].1);
    if t < j - 1 {
        lemma_entries_take_mono(es, t, j - 1);
    }
}

pub proof fn lemma_items_take_mono(vals: Seq<Value>, t: int, j: int)
    requires
        0 <= t < j <= vals.len(),
    ensures
        items_op_count(vals.take(t)) < items_op_count(vals.take(j)),
    decreases j - t,
{
    lemma_items_prefix(vals, j - 1);
    lemma_op_count_pos(vals[j - 1]);
    if t < j - 1 {
        lemma_items_take_mono(vals, t, j - 1);
    }
}

/// The first `j` entries' first ops are as `entry_ops` says.
#[verifier::opaque]
pub open spec fn entry_ops_upto(ops: Seq<Op>, base: int, entries: Seq<(String, Value)>, obj: ObjectId, j: int) -> bool {
    forall|t: int|
        0 <= t < j ==> op_is(
            ops[base + 1 + entries_op_count(entries.take(t))],
            creation_action((#[trigger] entries[t]).1),
            obj,
            Key::Prop(entries[t].0),
            false,
            Seq::empty(),
        )
}

/// The first `j` items' first ops are as `item_ops` says.
#[verifier::opaque]
pub open spec fn item_ops_upto(
    ops: Seq<Op>,
    base: int,
    items: Seq<Value>,
    obj: ObjectId,
    start: u64,
    actor: ActorId,
    j: int,
) -> bool {
    forall|t: int|
        0 <= t < j ==> op_is(
            ops[base + 1 + items_op_count(items.take(t))],
            creation_action(#[trigger] items[t]),
            obj,
            Key::Elem(item_anchor(items, start, actor, t)),
            true,
            Seq::empty(),
        )
}

pub proof fn lemma_entry_ops_step(
    before: Seq<Op>,
    after: Seq<Op>,
    base: int,
    entries: Seq<(String, Value)>,
    obj: ObjectId,
    j: int,
)
    requires
        0 <= j < entries.len(),
        0 <= base,
        entry_ops_upto(before, base, entries, obj, j),
        before.len() == base + 1 + entries_op_count(entries.take(j)),
        after.len() >= before.len(),
        after.subrange(0, before.len() as int) == before,
        op_is(after[before.len() as int], creation_action(entries[j].1), obj, Key::Prop(entries[j].0), false, Seq::empty()),
    ensures
        entry_ops_upto(after, base, entries, obj, j + 1),
{
    reveal(entry_ops_upto);
    assert forall|t: int| 0 <= t < j + 1 implies op_is(
        after[base + 1 + entries_op_count(entries.take(t))],
        creation_action((#[trigger] entries[t]).1),
        obj,
        Key::Prop(entries[t].0),
        false,
        Seq::empty(),
    ) by {
        if t < j {
            lemma_entries_take_mono(entries, t, j);
            let idx = base + 1 + entries_op_count(entries.take(t));
            assert(after[idx] == after.subrange(0, before.len() as int)[idx]);
        }
    }
}

pub proof fn lemma_item_ops_step(
    before: Seq<Op>,
    after: Seq<Op>,
    base: int,
    items: Seq<Value>,
    obj: ObjectId,
    start: u64,
    actor: ActorId,
    j: int,
)
    requires
        0 <= j < items.len(),
        0 <= base,
        item_ops_upto(before, base, items, obj, start, actor, j),
        before.len() == base + 1 + items_op_count(items.take(j)),
        after.len() >= before.len(),
        after.subrange(0, before.len() as int) == before,
        op_is(
            after[before.len() as int],
            creation_action(items[j]),
            obj,
            Key::Elem(item_anchor(items, start, actor, j)),
            true,
            Seq::empty(),
        ),
    ensures
        item_ops_upto(after, base, items, obj, start, actor, j + 1),
{
    reveal(item_ops_upto);
    assert forall|t: int| 0 <= t < j + 1 implies op_is(
        after[base + 1 + items_op_count(items.take(t))],
        creation_action(#[trigger] items[t]),
        obj,
        Key::Elem(item_anchor(items, start, actor, t)),
        true,
        Seq::empty(),
    ) by {
        if t < j {
            lemma_items_take_mono(items, t, j);
            let idx = base + 1 + items_op_count(items.take(t));
            assert(after[idx] == after.subrange(0, before.len() as int)[idx]);
        }
    }
}

pub proof fn lemma_ops_upto_done(ops: Seq<Op>, base: int, entries: Seq<(String, Value)>, items: Seq<Value>, obj: ObjectId, start: u64, actor: ActorId)
    ensures
        entry_ops_upto(ops, base, entries, obj, entries.len() as int) ==> entry_ops(ops, base, entries, obj),
        item_ops_upto(ops, base, items, obj, start, actor, items.len() as int) ==> item_ops(ops, base, items, obj, start, actor),
        entry_ops_upto(ops, base, entries, obj, 0),
        item_ops_upto(ops, base, items, obj, start, actor, 0),
{
    reveal(entry_ops_upto);
    reveal(item_ops_upto);
}

/// The child ops of a new value created by op `o`, its first op at `base`.
pub open spec fn child_ops(ops: Seq<Op>, base: int, value: Value, o: OpId) -> bool {
    match value {
        Value::Object(entries, _) => entry_ops(ops, base, entries@, ObjectId::Id(o)),
        Value::Sequence(items, _) => item_ops(ops, base, items@, ObjectId::Id(o), o.counter, o.actor),
        Value::Primitive(_) => true,
    }
}

/// The op id of the `t`-th child of a new map created by op `start`.
pub open spec fn entry_opid(entries: Seq<(String, Value)>, start: u64, actor: ActorId, t: int) -> OpId {
    OpId { counter: (start + 1 + entries_op_count(entries.take(t))) as u64, actor }
}

/// The op id of the `t`-th item of a new sequence created by op `start`.
pub open spec fn item_opid(items: Seq<Value>, start: u64, actor: ActorId, t: int) -> OpId {
    OpId { counter: (start + 1 + items_op_count(items.take(t))) as u64, actor }
}

/// The body of the object a new composite value created by op `start`
/// makes: each entry or item under the op id that created it.
pub open spec fn created_body(b: ObjectBody, value: Value, start: u64, actor: ActorId) -> bool {
    match value {
        Value::Object(entries, mt) => b is MapObject && b->MapObject_0 == mt && b->MapObject_1@.len() == entries@.len()
            && forall|t: int|
            0 <= t < entries@.len() ==> (#[trigger] b->MapObject_1@[t]).0 == entries@[t].0 && b->MapObject_1@[t].1@
                == seq![
                (
                    entry_opid(entries@, start, actor, t),
                    created_entry(entries@[t].1, entry_opid(entries@, start, actor, t)),
                ),
            ],
        Value::Sequence(items, SeqType::List) => b is ListObject && b->ListObject_0@.len() == items@.len() && forall|
            t: int,
        |
            0 <= t < items@.len() ==> {
                let o = item_opid(items@, start, actor, t);
                #[trigger] b->ListObject_0@[t] == (o, ElementState::Original(seq![(o, created_entry(items@[t], o))]))
            },
        Value::Sequence(items, SeqType::Text) => b is TextObject && b->TextObject_0@.len() == items@.len() && forall|
            t: int,
        |
            0 <= t < items@.len() ==> {
                let o = item_opid(items@, start, actor, t);
                #[trigger] b->TextObject_0@[t] == (
                    o,
                    ElementState::Original(seq![(o, items@[t]->Primitive_0->Str_0)]),
                )
            },
        Value::Primitive(_) => true,
    }
}

/// Every object of `objs` from position `from` on has an id made by `actor`
/// with a counter in `[lo, hi)`.
pub open spec fn added_in_range(objs: Seq<StateObject>, from: int, lo: int, hi: int, actor: ActorId) -> bool {
    forall|t: int|
        from <= t < objs.len() ==> (#[trigger] objs[t]).id is Id && lo <= objs[t].id->Id_0.counter < hi
            && objs[t].id->Id_0.actor == actor
}

pub proof fn lemma_added_join(
    a: Seq<StateObject>,
    b: Seq<StateObject>,
    from: int,
    mid: int,
    lo: int,
    m: int,
    hi: int,
    actor: ActorId,
)
    requires
        0 <= from <= mid <= a.len(),
        b.len() >= a.len(),
        b.subrange(0, a.len() as int) == a,
        added_in_range(a, from, lo, m, actor),
        added_in_range(b, a.len() as int, m, hi, actor),
        lo <= m <= hi,
    ensures
        added_in_range(b, from, lo, hi, actor),
{
    assert forall|t: int| from <= t < b.len() implies (#[trigger] b[t]).id is Id && lo <= b[t].id->Id_0.counter < hi
        && b[t].id->Id_0.actor == actor by {
        if t < a.len() {
            assert(b[t] == b.subrange(0, a.len() as int)[t]);
        }
    }
}

/// Every op from position `from` on stands for exactly one op id.
pub open spec fn unit_ops(ops: Seq<Op>, from: int) -> bool {
    forall|t: int| from <= t < ops.len() ==> op_width(#[trigger] ops[t]) == 1
}

/// Every op stands for at least one op id.
pub open spec fn positive_widths(ops: Seq<Op>) -> bool {
    forall|t: int| 0 <= t < ops.len() ==> op_width(#[trigger] ops[t]) >= 1
}

/// `op` has the given action, object, key, insert flag and preds.
pub open spec fn op_is(op: Op, action: OpType, obj: ObjectId, key: Key, insert: bool, pred: Seq<OpId>) -> bool {
    &&& op.action == action
    &&& op.obj == obj
    &&& op.key == key
    &&& op.insert == insert
    &&& op.pred@ == pred
}

pub proof fn lemma_entries_prefix(s: Seq<(String, Value)>, k: int)
    requires
        0 <= k < s.len(),
    ensures
        entries_op_count(s.take(k + 1)) == entries_op_count(s.take(k)) + s[k].1.op_count(),
        entries_op_count(s.take(k + 1)) <= entries_op_count(s),
    decreases s.len() - k,
{
    assert(s.take(k + 1).drop_last() =~= s.take(k));
    if k + 1 < s.len() {
        lemma_entries_prefix(s, k + 1);
    } else {
        assert(s.take(k + 1) =~= s);
    }
}

pub proof fn lemma_items_prefix(s: Seq<Value>, k: int)
    requires
        0 <= k < s.len(),
    ensures
        items_op_count(s.take(k + 1)) == items_op_count(s.take(k)) + s[k].op_count(),
        items_op_count(s.take(k + 1)) <= items_op_count(s),
    decreases s.len() - k,
{
    assert(s.take(k + 1).drop_last() =~= s.take(k));
    if k + 1 < s.len() {
        lemma_items_prefix(s, k + 1);
    } else {
        assert(s.take(k + 1) =~= s);
    }
}

pub proof fn lemma_op_count_pos(v: Value)
    ensures
        v.op_count() >= 1,
{
}

/// Pushing an object with an op id keeps where the root object is.
pub proof fn lemma_push_object(objs: Seq<StateObject>, o: StateObject)
    requires
        o.id is Id,
    ensures
        object_index(objs.push(o), ObjectId::Root) == object_index(objs, ObjectId::Root),
{
    assert(objs.push(o).drop_last() =~= objs);
}

impl StateTree {
    /// Pushes a new object, keeping the tree well formed.
    pub(crate) fn push_object(&mut self, o: StateObject)
        requires
            old(self).wf(),
            o.id is Id,
            body_wf(o.body),
        ensures
            final(self).wf(),
            final(self).objects@ == old(self).objects@.push(o),
    {
        proof {
            lemma_push_object(self.objects@, o);
            lemma_object_index(self.objects@, ObjectId::Root);
        }
        let ghost before = self.objects@;
        self.objects.push(o);
        let ghost ri = object_index(before, ObjectId::Root);
        assert(self.objects@[ri] == before[ri]);
        assert forall|i: int| 0 <= i < self.objects@.len() implies body_wf(
            #[trigger] self.objects@[i].body,
        ) by {
            if i < before.len() {
                assert(self.objects@[i] == before[i]);
            }
        }
    }

    /// Creates `value` as assigned by op `start` under `key` of `parent`: the
    /// objects it needs are added to the tree and its ops appended to `ops`,
    /// one per node of the value, with counters from `start` on. Returns the
    /// register entry for it and the next free counter.
    pub fn new_value(
        &mut self,
        value: Value,
        parent: &ObjectId,
        key: Key,
        insert: bool,
        pred: Vec<OpId>,
        start: u64,
        actor: &ActorId,
        ops: &mut Vec<Op>,
    ) -> (r: (StateTreeValue, u64))
        requires
            old(self).wf(),
            fits(value),
            start + value.op_count() <= u64::MAX,
        ensures
            final(self).wf(),
            final(self).objects@.len() >= old(self).objects@.len(),
            final(self).objects@.subrange(0, old(self).objects@.len() as int) == old(self).objects@,
            added_in_range(
                final(self).objects@,
                old(self).objects@.len() as int,
                start as int,
                start + value.op_count(),
                *actor,
            ),
            value is Primitive ==> final(self).objects@.len() == old(self).objects@.len(),
            final(ops)@.len() == old(ops)@.len() + value.op_count(),
            final(ops)@.subrange(0, old(ops)@.len() as int) == old(ops)@,
            ops_width(final(ops)@) == ops_width(old(ops)@) + value.op_count(),
            unit_ops(final(ops)@, old(ops)@.len() as int),
            value is Object ==> entry_ops(
                final(ops)@,
                old(ops)@.len() as int,
                value->Object_0@,
                ObjectId::Id(OpId { counter: start, actor: *actor }),
            ),
            value is Sequence ==> item_ops(
                final(ops)@,
                old(ops)@.len() as int,
                value->Sequence_0@,
                ObjectId::Id(OpId { counter: start, actor: *actor }),
                start,
                *actor,
            ),
            op_is(
                final(ops)@[old(ops)@.len() as int],
                creation_action(value),
                *parent,
                key,
                insert,
                pred@,
            ),
            r.0 == created_entry(value, OpId { counter: start, actor: *actor }),
            !(value is Primitive) ==> final(self).objects@.len() > old(self).objects@.len() && final(self).objects@.last().id
                == ObjectId::Id(OpId { counter: start, actor: *actor }) && crate::state_tree::kind_matches(
                final(self).objects@.last().body,
                r.0->Composite_0,
            ) && created_body(final(self).objects@.last().body, value, start, *actor),
            r.1 == start + value.op_count(),
        decreases value.op_count(),
    {
        let ghost whole = value;
        let ghost objs0 = self.objects@;
        let ghost ops0 = ops@;
        let opid = OpId::new(start, actor);
        match value {
            Value::Primitive(s) => {
                let entry = StateTreeValue::Leaf(s.copy());
                ops.push(Op { action: OpType::SetScalar(s), obj: parent.copy(), key, insert, pred });
                assert(ops@.subrange(0, ops0.len() as int) =~= ops0);
                assert(ops@.drop_last() =~= ops0);
                assert(self.objects@.subrange(0, objs0.len() as int) =~= objs0);
                (entry, start + 1)
            },
            Value::Object(entries, mt) => {
                let obj_id = ObjectId::Id(opid.copy());
                ops.push(
                    Op { action: OpType::Make(ObjType::MapLike(mt)), obj: parent.copy(), key, insert, pred },
                );
                assert(ops@.drop_last() =~= ops0);
                let ghost ops1 = ops@;
                let ghost orig = entries@;
                assert(whole.op_count() == 1 + entries_op_count(orig));
                let mut props: Vec<(String, MultiValue)> = Vec::new();
                let mut next: u64 = start + 1;
                let total = entries.len();
                let mut rest = entries;
                let mut j: usize = 0;
                assert(orig.take(0) =~= orig.take(0));
                proof {
                    lemma_ops_upto_done(ops@, ops0.len() as int, orig, Seq::empty(), obj_id, start, *actor);
                }
                while rest.len() > 0
                    invariant
                        self.wf(),
                        whole == Value::Object(entries, mt),
                        orig == entries@,
                        forall|t: int| 0 <= t < orig.len() ==> fits((#[trigger] orig[t]).1),
                        start + whole.op_count() <= u64::MAX,
                        whole.op_count() == 1 + entries_op_count(orig),
                        j + rest@.len() == orig.len(),
                        total == orig.len(),
                        whole == value,
                        rest@ == orig.skip(j as int),
                        next == start + 1 + entries_op_count(orig.take(j as int)),
                        self.objects@.len() >= objs0.len(),
                        added_in_range(self.objects@, objs0.len() as int, start + 1, next as int, *actor),
                        self.objects@.subrange(0, objs0.len() as int) == objs0,
                        ops@.len() == ops1.len() + entries_op_count(orig.take(j as int)),
                        ops_width(ops@) == ops_width(ops1) + entries_op_count(orig.take(j as int)),
                        obj_id == ObjectId::Id(OpId { counter: start, actor: *actor }),
                        entry_ops_upto(ops@, ops0.len() as int, orig, obj_id, j as int),
                        props@.len() == j,
                        forall|t: int|
                            0 <= t < j ==> (#[trigger] props@[t]).0 == orig[t].0 && props@[t].1@ == seq![
                                (
                                    entry_opid(orig, start, *actor, t),
                                    created_entry(orig[t].1, entry_opid(orig, start, *actor, t)),
                                ),
                            ],
                        unit_ops(ops@, ops0.len() as int),
                        ops1.len() == ops0.len() + 1,
                        ops@.subrange(0, ops1.len() as int) == ops1,
                        forall|t: int| 0 <= t < props@.len() ==> (#[trigger] props@[t]).1.wf(),
                    decreases rest@.len(),
                {
                    let (k, v) = rest.remove(0);
                    proof {
                        assert(rest@ =~= orig.skip(j + 1));
                        assert((k, v) == orig[j as int]);
                        lemma_entries_prefix(orig, j as int);
                        assert(v.op_count() < whole.op_count());
                    }
                    let ghost objs_before = self.objects@;
                    let ghost ops_before = ops@;
                    let child_id = OpId::new(next, actor);
                    let (entry, after) = self.new_value(
                        v,
                        &obj_id,
                        Key::Prop(k.clone()),
                        false,
                        Vec::new(),
                        next,
                        actor,
                        ops,
                    );
                    props.push((k, MultiValue::new_single(child_id, entry)));
                    proof {
                        assert forall|t: int| ops0.len() <= t < ops@.len() implies op_width(#[trigger] ops@[t]) == 1 by {
                            if t < ops_before.len() {
                                assert(ops@[t] == ops@.subrange(0, ops_before.len() as int)[t]);
                            }
                        }
                        assert(self.objects@.subrange(0, objs0.len() as int) =~= objs_before.subrange(
                            0,
                            objs0.len() as int,
                        ));
                        assert(ops@.subrange(0, ops1.len() as int) =~= ops_before.subrange(
                            0,
                            ops1.len() as int,
                        ));
                        lemma_entry_ops_step(ops_before, ops@, ops0.len() as int, orig, obj_id, j as int);
                        lemma_added_join(
                            objs_before,
                            self.objects@,
                            objs0.len() as int,
                            objs0.len() as int,
                            start + 1,
                            next as int,
                            after as int,
                            *actor,
                        );
                    }
                    next = after;
                    j = j + 1;
                }
                proof {
                    assert(orig.take(j as int) =~= orig);
                    lemma_ops_upto_done(ops@, ops0.len() as int, orig, Seq::empty(), obj_id, start, *actor);
                }
                let ghost objs_before = self.objects@;
                let o = StateObject { id: obj_id, body: ObjectBody::MapObject(mt, props) };
                self.push_object(o);
                proof {
                    assert(self.objects@.subrange(0, objs0.len() as int) =~= objs_before.subrange(
                        0,
                        objs0.len() as int,
                    ));
                    assert(ops@.subrange(0, ops0.len() as int) =~= ops1.subrange(0, ops0.len() as int));
                    assert(ops@[ops0.len() as int] == ops1[ops0.len() as int]);
                    assert forall|t: int| objs0.len() <= t < self.objects@.len() implies (#[trigger] self.objects@[t]).id is Id
                        && start <= self.objects@[t].id->Id_0.counter < start + whole.op_count()
                        && self.objects@[t].id->Id_0.actor == *actor by {
                        if t < objs_before.len() {
                            assert(self.objects@[t] == objs_before[t]);
                        }
                    }
                }
                (StateTreeValue::Composite(ObjType::MapLike(mt), ObjectId::Id(opid)), next)
            },
            Value::Sequence(items, st) => {
                let obj_id = ObjectId::Id(opid.copy());
                ops.push(
                    Op { action: OpType::Make(ObjType::Sequence(st)), obj: parent.copy(), key, insert, pred },
                );
                assert(ops@.drop_last() =~= ops0);
                let ghost ops1 = ops@;
                let ghost orig = items@;
                assert(whole.op_count() == 1 + items_op_count(orig));
                let is_text = match st {
                    SeqType::Text => true,
                    SeqType::List => false,
                };
                let mut list: DiffableSequence<MultiValue> = DiffableSequence::new();
                let mut text: DiffableSequence<MultiGrapheme> = DiffableSequence::new();
                let mut next: u64 = start + 1;
                let mut last = ElementId::Head;
                let total = items.len();
                let mut rest = items;
                let mut j: usize = 0;
                assert(orig.take(0) =~= orig.take(0));
                proof {
                    lemma_ops_upto_done(ops@, ops0.len() as int, Seq::empty(), orig, obj_id, start, *actor);
                }
                while rest.len() > 0
                    invariant
                        self.wf(),
                        list.wf(),
                        text.wf(),
                        !is_text ==> list@.len() == j,
                        is_text ==> text@.len() == j,
                        whole == Value::Sequence(items, st),
                        is_text == (st == SeqType::Text),
                        orig == items@,
                        !is_text ==> forall|t: int| 0 <= t < orig.len() ==> fits(#[trigger] orig[t]),
                        is_text ==> forall|t: int| 0 <= t < orig.len() ==> is_grapheme_value(#[trigger] orig[t]),
                        start + whole.op_count() <= u64::MAX,
                        whole.op_count() == 1 + items_op_count(orig),
                        j + rest@.len() == orig.len(),
                        total == orig.len(),
                        whole == value,
                        rest@ == orig.skip(j as int),
                        next == start + 1 + items_op_count(orig.take(j as int)),
                        self.objects@.len() >= objs0.len(),
                        added_in_range(self.objects@, objs0.len() as int, start + 1, next as int, *actor),
                        self.objects@.subrange(0, objs0.len() as int) == objs0,
                        ops@.len() == ops1.len() + items_op_count(orig.take(j as int)),
                        ops_width(ops@) == ops_width(ops1) + items_op_count(orig.take(j as int)),
                        obj_id == ObjectId::Id(OpId { counter: start, actor: *actor }),
                        last == item_anchor(orig, start, *actor, j as int),
                        item_ops_upto(ops@, ops0.len() as int, orig, obj_id, start, *actor, j as int),
                        !is_text ==> forall|t: int|
                            0 <= t < j ==> #[trigger] list@[t] == (
                                item_opid(orig, start, *actor, t),
                                ElementState::Original(
                                    seq![
                                        (
                                            item_opid(orig, start, *actor, t),
                                            created_entry(orig[t], item_opid(orig, start, *actor, t)),
                                        ),
                                    ],
                                ),
                            ),
                        is_text ==> forall|t: int|
                            0 <= t < j ==> #[trigger] text@[t] == (
                                item_opid(orig, start, *actor, t),
                                ElementState::Original(
                                    seq![(item_opid(orig, start, *actor, t), orig[t]->Primitive_0->Str_0)],
                                ),
                            ),
                        unit_ops(ops@, ops0.len() as int),
                        ops1.len() == ops0.len() + 1,
                        ops@.subrange(0, ops1.len() as int) == ops1,
                    decreases rest@.len(),
                {
                    let v = rest.remove(0);
                    proof {
                        assert(rest@ =~= orig.skip(j + 1));
                        assert(v == orig[j as int]);
                        lemma_items_prefix(orig, j as int);
                        assert(v.op_count() < whole.op_count());
                    }
                    let ghost objs_before = self.objects@;
                    let ghost ops_before = ops@;
                    let ghost next_before = next;
                    let child_id = OpId::new(next, actor);
                    let elem = ElementId::Id(child_id.copy());
                    if is_text {
                        match v {
                            Value::Primitive(ScalarValue::Str(g)) => {
                                let ghost w_before = ops@;
                                ops.push(
                                    Op {
                                        action: OpType::SetScalar(ScalarValue::Str(g.clone())),
                                        obj: obj_id.copy(),
                                        key: Key::Elem(last),
                                        insert: true,
                                        pred: Vec::new(),
                                    },
                                );
                                assert(ops@.drop_last() =~= w_before);
                                text.insert(j, MultiGrapheme::new_from_grapheme_cluster(child_id, g));
                                next = next + 1;
                            },
                            _ => {
                                proof {
                                    assert(is_grapheme_value(orig[j as int]));
                                }
                                unreached()
                            },
                        }
                    } else {
                        let (entry, after) = self.new_value(
                            v,
                            &obj_id,
                            Key::Elem(last),
                            true,
                            Vec::new(),
                            next,
                            actor,
                            ops,
                        );
                        list.insert(j, MultiValue::new_single(child_id, entry));
                        next = after;
                    }
                    let ghost last_before = last;
                    last = elem;
                    proof {
                        assert(orig.take(j + 1 - 1) =~= orig.take(j as int));
                        lemma_item_ops_step(ops_before, ops@, ops0.len() as int, orig, obj_id, start, *actor, j as int);
                        if is_text {
                            assert(self.objects@ == objs_before);
                        } else {
                            lemma_added_join(
                                objs_before,
                                self.objects@,
                                objs0.len() as int,
                                objs0.len() as int,
                                start + 1,
                                next_before as int,
                                next as int,
                                *actor,
                            );
                        }
                        assert forall|t: int| ops0.len() <= t < ops@.len() implies op_width(#[trigger] ops@[t]) == 1 by {
                            if t < ops_before.len() {
                                assert(ops@[t] == ops@.subrange(0, ops_before.len() as int)[t]);
                            }
                        }
                        assert(self.objects@.subrange(0, objs0.len() as int) =~= objs_before.subrange(
                            0,
                            objs0.len() as int,
                        ));
                        assert(ops@.subrange(0, ops1.len() as int) =~= ops_before.subrange(
                            0,
                            ops1.len() as int,
                        ));
                    }
                    j = j + 1;
                }
                proof {
                    assert(orig.take(j as int) =~= orig);
                    lemma_ops_upto_done(ops@, ops0.len() as int, Seq::empty(), orig, obj_id, start, *actor);
                }
                let ghost objs_before = self.objects@;
                let body = if is_text {
                    ObjectBody::TextObject(text)
                } else {
                    ObjectBody::ListObject(list)
                };
                self.push_object(StateObject { id: obj_id, body });
                proof {
                    assert(self.objects@.subrange(0, objs0.len() as int) =~= objs_before.subrange(
                        0,
                        objs0.len() as int,
                    ));
                    assert(ops@.subrange(0, ops0.len() as int) =~= ops1.subrange(0, ops0.len() as int));
                    assert(ops@[ops0.len() as int] == ops1[ops0.len() as int]);
                    assert forall|t: int| objs0.len() <= t < self.objects@.len() implies (#[trigger] self.objects@[t]).id is Id
                        && start <= self.objects@[t].id->Id_0.counter < start + whole.op_count()
                        && self.objects@[t].id->Id_0.actor == *actor by {
                        if t < objs_before.len() {
                            assert(self.objects@[t] == objs_before[t]);
                        }
                    }
                }
                (StateTreeValue::Composite(ObjType::Sequence(st), ObjectId::Id(opid)), next)
            },
        }
    }
}

} // verus!
