//! Targets a path resolves to, for reading and for changing, and the local
//! operations on them.

use vstd::prelude::*;

use crate::diffable_sequence::ElementState;
use crate::grapheme::grapheme_count_of;
use crate::multivalue::{max_entry_index, max_index, opids_of, DiffableValue, MultiGrapheme, MultiValue, StateTreeValue};
use crate::new_value::{created_entry, creation_action, op_is, op_width, ops_width, positive_widths};
use crate::protocol::{ActorId, Cursor, ElementId, Key, MapType, ObjType, ObjectId, Op, OpId, OpType, ScalarValue, SeqType};
use crate::state_tree::{
    default_value_of, entry_model, find_prop, lemma_object_index, lemma_prop_index, materialized, object_index,
    others_kept, pred_for_key, prop_removed, prop_set, put_prop, register_at, remove_prop, ObjectBody, Resolution,
    Slot, StateObject, StateTree,
};
use crate::value::{fits, items_op_count, InvalidChangeRequest, Path, PathElement, Value, ValueModel};

verus! {

/// The ops one local operation emits.
pub struct LocalOperationResult {
    pub new_ops: Vec<Op>,
}

/// What a local set or insert needs: the counter of its first op, the actor,
/// and the value.
pub struct SetOrInsertPayload<T> {
    pub start_op: u64,
    pub actor: ActorId,
    pub value: T,
}

pub struct ResolvedRoot {}

pub struct ResolvedRootMut {}

pub struct ResolvedMap {
    pub object_id: ObjectId,
    pub slot: Slot,
}

pub struct ResolvedMapMut {
    pub object_id: ObjectId,
    pub slot: Slot,
}

pub struct ResolvedTable {
    pub object_id: ObjectId,
    pub slot: Slot,
}

pub struct ResolvedTableMut {
    pub object_id: ObjectId,
    pub slot: Slot,
}

pub struct ResolvedList {
    pub object_id: ObjectId,
    pub slot: Slot,
}

pub struct ResolvedListMut {
    pub object_id: ObjectId,
    pub slot: Slot,
}

pub struct ResolvedText {
    pub object_id: ObjectId,
    pub slot: Slot,
}

pub struct ResolvedTextMut {
    pub object_id: ObjectId,
    pub slot: Slot,
}

pub struct ResolvedChar {
    pub slot: Slot,
}

pub struct ResolvedCharMut {
    pub slot: Slot,
}

pub struct ResolvedCounter {
    pub slot: Slot,
}

pub struct ResolvedCounterMut {
    pub slot: Slot,
}

pub struct ResolvedPrimitive {
    pub slot: Slot,
}

pub struct ResolvedPrimitiveMut {
    pub slot: Slot,
}

/// What a path resolves to, for reading.
pub enum Target {
    Root(ResolvedRoot),
    Mapping(ResolvedMap),
    Table(ResolvedTable),
    List(ResolvedList),
    Text(ResolvedText),
    Character(ResolvedChar),
    Counter(ResolvedCounter),
    Primitive(ResolvedPrimitive),
}

/// What a path resolves to, for changing.
pub enum TargetMut {
    Root(ResolvedRootMut),
    Mapping(ResolvedMapMut),
    Table(ResolvedTableMut),
    List(ResolvedListMut),
    Text(ResolvedTextMut),
    Character(ResolvedCharMut),
    Counter(ResolvedCounterMut),
    Primitive(ResolvedPrimitiveMut),
}

pub struct ResolvedPath {
    pub target: Target,
}

pub struct ResolvedPathMut {
    pub target: TargetMut,
}

impl Target {
    pub open spec fn model(&self) -> Resolution {
        match self {
            Target::Root(_) => Resolution::Root,
            Target::Mapping(m) => Resolution::Composite(ObjType::MapLike(MapType::Plain), m.object_id, m.slot),
            Target::Table(m) => Resolution::Composite(ObjType::MapLike(MapType::Table), m.object_id, m.slot),
            Target::List(m) => Resolution::Composite(ObjType::Sequence(SeqType::List), m.object_id, m.slot),
            Target::Text(m) => Resolution::Composite(ObjType::Sequence(SeqType::Text), m.object_id, m.slot),
            Target::Character(c) => Resolution::Character(c.slot),
            Target::Counter(c) => Resolution::Counter(c.slot),
            Target::Primitive(p) => Resolution::Primitive(p.slot),
        }
    }
}

impl TargetMut {
    pub open spec fn model(&self) -> Resolution {
        match self {
            TargetMut::Root(_) => Resolution::Root,
            TargetMut::Mapping(m) => Resolution::Composite(ObjType::MapLike(MapType::Plain), m.object_id, m.slot),
            TargetMut::Table(m) => Resolution::Composite(ObjType::MapLike(MapType::Table), m.object_id, m.slot),
            TargetMut::List(m) => Resolution::Composite(ObjType::Sequence(SeqType::List), m.object_id, m.slot),
            TargetMut::Text(m) => Resolution::Composite(ObjType::Sequence(SeqType::Text), m.object_id, m.slot),
            TargetMut::Character(c) => Resolution::Character(c.slot),
            TargetMut::Counter(c) => Resolution::Counter(c.slot),
            TargetMut::Primitive(p) => Resolution::Primitive(p.slot),
        }
    }
}

/// The placeholder op id under which the root's value is reported.
pub open spec fn root_placeholder(o: OpId) -> bool {
    o.counter == 0 && o.actor.label@.len() == 0
}

/// The view of the grapheme at a text slot.
pub open spec fn char_view(objs: Seq<StateObject>, slot: Slot) -> ValueModel {
    let i = object_index(objs, slot.container);
    match (objs[i].body, slot.step) {
        (ObjectBody::TextObject(s), PathElement::Index(n)) => ValueModel::Primitive(
            ScalarValue::Str(s.values()[n as int].1[max_index(s.values()[n as int].1)].1),
        ),
        _ => ValueModel::Primitive(ScalarValue::Null),
    }
}

/// The view of what a resolution names.
pub open spec fn target_view(objs: Seq<StateObject>, r: Resolution) -> ValueModel {
    match r {
        Resolution::Root => materialized(objs, ObjectId::Root, objs.len()),
        Resolution::Composite(_, o, _) => materialized(objs, o, objs.len()),
        Resolution::Character(slot) => char_view(objs, slot),
        Resolution::Counter(slot) => match register_at(objs, slot) {
            Some(reg) => entry_model(objs, default_value_of(reg), objs.len()),
            None => ValueModel::Primitive(ScalarValue::Null),
        },
        Resolution::Primitive(slot) => match register_at(objs, slot) {
            Some(reg) => entry_model(objs, default_value_of(reg), objs.len()),
            None => ValueModel::Primitive(ScalarValue::Null),
        },
    }
}

/// A slot names a character of a text object in the tree.
pub open spec fn char_slot_ok(objs: Seq<StateObject>, slot: Slot) -> bool {
    let i = object_index(objs, slot.container);
    &&& i >= 0
    &&& objs[i].body is TextObject
    &&& slot.step is Index
    &&& slot.step->Index_0 < objs[i].body->TextObject_0@.len()
}

/// The register at a slot of a map or list.
pub fn find_register<'a>(tree: &'a StateTree, slot: &Slot) -> (r: Option<&'a MultiValue>)
    requires
        tree.wf(),
    ensures
        match register_at(tree.objects@, *slot) {
            Some(reg) => r is Some && r->Some_0@ == reg && r->Some_0.wf(),
            None => r is None,
        },
{
    let i = match tree.find_object(&slot.container) {
        Some(i) => i,
        None => {
            return None;
        },
    };
    assert(crate::state_tree::body_wf(tree.objects@[i as int].body));
    match (&tree.objects[i].body, &slot.step) {
        (ObjectBody::MapObject(_, props), PathElement::Key(k)) => {
            proof {
                lemma_prop_index(props@, k@);
            }
            match find_prop(props, k) {
                Some(j) => Some(&props[j].1),
                None => None,
            }
        },
        (ObjectBody::ListObject(s), PathElement::Index(n)) => {
            if (*n as usize) < s.len() {
                let (_id, mv) = s.get(*n as usize);
                Some(mv)
            } else {
                None
            }
        },
        _ => None,
    }
}

impl ResolvedPath {
    pub fn new_root() -> (r: ResolvedPath)
        ensures
            r.target.model() == Resolution::Root,
    {
        ResolvedPath { target: Target::Root(ResolvedRoot {}) }
    }

    pub fn new_map(object_id: ObjectId, slot: Slot) -> (r: ResolvedPath)
        ensures
            r.target == Target::Mapping(ResolvedMap { object_id, slot }),
    {
        ResolvedPath { target: Target::Mapping(ResolvedMap { object_id, slot }) }
    }

    pub fn new_table(object_id: ObjectId, slot: Slot) -> (r: ResolvedPath)
        ensures
            r.target == Target::Table(ResolvedTable { object_id, slot }),
    {
        ResolvedPath { target: Target::Table(ResolvedTable { object_id, slot }) }
    }

    pub fn new_list(object_id: ObjectId, slot: Slot) -> (r: ResolvedPath)
        ensures
            r.target == Target::List(ResolvedList { object_id, slot }),
    {
        ResolvedPath { target: Target::List(ResolvedList { object_id, slot }) }
    }

    pub fn new_text(object_id: ObjectId, slot: Slot) -> (r: ResolvedPath)
        ensures
            r.target == Target::Text(ResolvedText { object_id, slot }),
    {
        ResolvedPath { target: Target::Text(ResolvedText { object_id, slot }) }
    }

    pub fn new_counter(slot: Slot) -> (r: ResolvedPath)
        ensures
            r.target == Target::Counter(ResolvedCounter { slot }),
    {
        ResolvedPath { target: Target::Counter(ResolvedCounter { slot }) }
    }

    pub fn new_primitive(slot: Slot) -> (r: ResolvedPath)
        ensures
            r.target == Target::Primitive(ResolvedPrimitive { slot }),
    {
        ResolvedPath { target: Target::Primitive(ResolvedPrimitive { slot }) }
    }

    pub fn new_character(slot: Slot) -> (r: ResolvedPath)
        ensures
            r.target == Target::Character(ResolvedChar { slot }),
    {
        ResolvedPath { target: Target::Character(ResolvedChar { slot }) }
    }

    /// The read view of a resolution.
    pub fn from_resolution(r: Resolution) -> (out: ResolvedPath)
        ensures
            out.target.model() == r,
    {
        match r {
            Resolution::Root => ResolvedPath::new_root(),
            Resolution::Composite(t, o, slot) => match t {
                ObjType::MapLike(MapType::Plain) => ResolvedPath::new_map(o, slot),
                ObjType::MapLike(MapType::Table) => ResolvedPath::new_table(o, slot),
                ObjType::Sequence(SeqType::List) => ResolvedPath::new_list(o, slot),
                ObjType::Sequence(SeqType::Text) => ResolvedPath::new_text(o, slot),
            },
            Resolution::Character(slot) => ResolvedPath::new_character(slot),
            Resolution::Counter(slot) => ResolvedPath::new_counter(slot),
            Resolution::Primitive(slot) => ResolvedPath::new_primitive(slot),
        }
    }

    /// The current value of what the path names; for a register, its default
    /// value.
    pub fn default_value(&self, tree: &StateTree) -> (r: Value)
        requires
            tree.wf(),
            self.target is Character ==> char_slot_ok(tree.objects@, self.target->Character_0.slot),
        ensures
            r.model() == target_view(tree.objects@, self.target.model()),
    {
        let fuel = tree.objects.len();
        match &self.target {
            Target::Root(_) => tree.value_of(&ObjectId::Root, fuel),
            Target::Mapping(m) => tree.value_of(&m.object_id, fuel),
            Target::Table(m) => tree.value_of(&m.object_id, fuel),
            Target::List(m) => tree.value_of(&m.object_id, fuel),
            Target::Text(m) => tree.value_of(&m.object_id, fuel),
            Target::Character(c) => char_value(tree, &c.slot),
            Target::Counter(c) => register_value(tree, &c.slot),
            Target::Primitive(p) => register_value(tree, &p.slot),
        }
    }

    /// Every concurrent value of what the path names, with the op that
    /// assigned it. The root has no register: its value is reported under a
    /// placeholder op id.
    pub fn values(&self, tree: &StateTree) -> (r: Vec<(OpId, Value)>)
        requires
            tree.wf(),
        ensures
            self.target is Character && char_slot_ok(tree.objects@, self.target->Character_0.slot) ==> ({
                let reg = char_register(tree.objects@, self.target->Character_0.slot);
                r@.len() == reg.len() && forall|i: int|
                    0 <= i < reg.len() ==> (#[trigger] r@[i]).0 == reg[i].0 && r@[i].1 == Value::Primitive(
                        ScalarValue::Str(reg[i].1),
                    )
            }),
            self.target is Root ==> r@.len() == 1 && root_placeholder(r@[0].0) && r@[0].1.model()
                == materialized(tree.objects@, ObjectId::Root, tree.objects@.len()),
            !(self.target is Root) && !(self.target is Character) ==> match register_at(
                tree.objects@,
                slot_of(self.target.model()),
            ) {
                Some(reg) => r@.len() == reg.len() && forall|i: int|
                    0 <= i < reg.len() ==> (#[trigger] r@[i]).0 == reg[i].0 && r@[i].1.model()
                        == entry_model(tree.objects@, reg[i].1, tree.objects@.len()),
                None => r@.len() == 0,
            },
    {
        let fuel = tree.objects.len();
        let slot = match &self.target {
            Target::Root(_) => {
                let mut r: Vec<(OpId, Value)> = Vec::new();
                let placeholder = OpId { counter: 0, actor: ActorId { label: String::new() } };
                r.push((placeholder, tree.value_of(&ObjectId::Root, fuel)));
                return r;
            },
            Target::Mapping(m) => &m.slot,
            Target::Table(m) => &m.slot,
            Target::List(m) => &m.slot,
            Target::Text(m) => &m.slot,
            Target::Character(c) => {
                return char_values(tree, &c.slot);
            },
            Target::Counter(c) => &c.slot,
            Target::Primitive(p) => &p.slot,
        };
        let mut r: Vec<(OpId, Value)> = Vec::new();
        match find_register(tree, slot) {
            None => r,
            Some(mv) => {
                let mut i: usize = 0;
                while i < mv.entries.len()
                    invariant
                        tree.wf(),
                        fuel == tree.objects@.len(),
                        i <= mv@.len(),
                        r@.len() == i,
                        forall|t: int|
                            0 <= t < i ==> (#[trigger] r@[t]).0 == mv@[t].0 && r@[t].1.model() == entry_model(
                                tree.objects@,
                                mv@[t].1,
                                fuel as nat,
                            ),
                    decreases mv@.len() - i,
                {
                    let e = &mv.entries[i];
                    r.push((e.0.copy(), tree.entry_value(&e.1, fuel)));
                    i = i + 1;
                }
                r
            },
        }
    }

    /// The id of the object the path names; none for a register of a scalar.
    pub fn object_id(&self) -> (r: Option<ObjectId>)
        ensures
            r == match self.target.model() {
                Resolution::Root => Some(ObjectId::Root),
                Resolution::Composite(_, o, _) => Some(o),
                _ => None::<ObjectId>,
            },
    {
        match &self.target {
            Target::Root(_) => Some(ObjectId::Root),
            Target::Mapping(m) => Some(m.object_id.copy()),
            Target::Table(m) => Some(m.object_id.copy()),
            Target::List(m) => Some(m.object_id.copy()),
            Target::Text(m) => Some(m.object_id.copy()),
            _ => None,
        }
    }
}

/// The slot of a resolution other than the root.
pub open spec fn slot_of(r: Resolution) -> Slot {
    match r {
        Resolution::Composite(_, _, s) => s,
        Resolution::Character(s) => s,
        Resolution::Counter(s) => s,
        Resolution::Primitive(s) => s,
        Resolution::Root => Slot {
            container: ObjectId::Root,
            key: Key::Elem(ElementId::Head),
            step: PathElement::Index(0),
        },
    }
}

/// The default value of the register at a slot.
fn register_value(tree: &StateTree, slot: &Slot) -> (r: Value)
    requires
        tree.wf(),
    ensures
        r.model() == match register_at(tree.objects@, *slot) {
            Some(reg) => entry_model(tree.objects@, default_value_of(reg), tree.objects@.len()),
            None => ValueModel::Primitive(ScalarValue::Null),
        },
{
    match find_register(tree, slot) {
        None => Value::Primitive(ScalarValue::Null),
        Some(mv) => {
            let v = mv.default_statetree_value();
            tree.entry_value(v, tree.objects.len())
        },
    }
}

/// The default grapheme at a text slot.
fn char_value(tree: &StateTree, slot: &Slot) -> (r: Value)
    requires
        tree.wf(),
        char_slot_ok(tree.objects@, *slot),
    ensures
        r.model() == char_view(tree.objects@, *slot),
{
    proof {
        lemma_object_index(tree.objects@, slot.container);
    }
    let i = tree.find_object(&slot.container).unwrap();
    assert(crate::state_tree::body_wf(tree.objects@[i as int].body));
    match (&tree.objects[i].body, &slot.step) {
        (ObjectBody::TextObject(s), PathElement::Index(n)) => {
            let (_id, g) = s.get(*n as usize);
            Value::Primitive(ScalarValue::Str(g.default_grapheme()))
        },
        _ => unreached(),
    }
}

/// The register of graphemes at a text slot.
pub open spec fn char_register(objs: Seq<StateObject>, slot: Slot) -> Seq<(OpId, String)> {
    text_at(objs, object_index(objs, slot.container))[slot.step->Index_0 as int].1->Original_0
}

/// Every concurrent grapheme at a text slot.
fn char_values(tree: &StateTree, slot: &Slot) -> (r: Vec<(OpId, Value)>)
    requires
        tree.wf(),
    ensures
        char_slot_ok(tree.objects@, *slot) ==> r@.len() == char_register(tree.objects@, *slot).len() && forall|i: int|
            0 <= i < r@.len() ==> (#[trigger] r@[i]).0 == char_register(tree.objects@, *slot)[i].0 && r@[i].1
                == Value::Primitive(ScalarValue::Str(char_register(tree.objects@, *slot)[i].1)),
{
    let mut r: Vec<(OpId, Value)> = Vec::new();
    let i = match tree.find_object(&slot.container) {
        Some(i) => i,
        None => {
            return r;
        },
    };
    assert(crate::state_tree::body_wf(tree.objects@[i as int].body));
    match (&tree.objects[i].body, &slot.step) {
        (ObjectBody::TextObject(s), PathElement::Index(n)) => {
            if (*n as usize) < s.len() {
                let (_id, g) = s.get(*n as usize);
                let mut j: usize = 0;
                while j < g.entries.len()
                    invariant
                        j <= g@.len(),
                        r@.len() == j,
                        forall|t: int|
                            0 <= t < j ==> (#[trigger] r@[t]).0 == g@[t].0 && r@[t].1 == Value::Primitive(
                                ScalarValue::Str(g@[t].1),
                            ),
                    decreases g@.len() - j,
                {
                    let e = &g.entries[j];
                    r.push((e.0.copy(), Value::Primitive(ScalarValue::Str(e.1.clone()))));
                    j = j + 1;
                }
            }
            r
        },
        _ => r,
    }
}

impl StateTree {
    /// The read view of what `path` names, if anything.
    pub fn resolve_path(&self, path: &Path) -> (r: Option<ResolvedPath>)
        requires
            self.wf(),
        ensures
            match crate::state_tree::resolve(self.objects@, path@) {
                Some(res) => r is Some && r->Some_0.target.model() == res,
                None => r is None,
            },
    {
        match self.locate(path) {
            Some(res) => Some(ResolvedPath::from_resolution(res)),
            None => None,
        }
    }
}

/// The entries of the map at position `i`.
pub open spec fn props_at(objs: Seq<StateObject>, i: int) -> Seq<(String, MultiValue)> {
    objs[i].body->MapObject_1@
}

/// The op id of a local op.
pub open spec fn local_opid(counter: u64, actor: ActorId) -> OpId {
    OpId { counter, actor }
}

/// The effect of setting key `key` of the map at position `i` to `value`,
/// created by op `start`: the key holds the new value alone, every other key
/// and object is kept, and the first op assigns the value over every op id
/// the key held.
pub open spec fn map_set_effect(
    old: Seq<StateObject>,
    new: Seq<StateObject>,
    i: int,
    key: String,
    value: Value,
    start: u64,
    actor: ActorId,
    ops: Seq<Op>,
) -> bool {
    &&& others_kept(old, new, i)
    &&& new[i].body is MapObject
    &&& new[i].body->MapObject_0 == old[i].body->MapObject_0
    &&& prop_set(
        props_at(old, i),
        props_at(new, i),
        key@,
        seq![(local_opid(start, actor), created_entry(value, local_opid(start, actor)))],
    )
    &&& ops.len() == value.op_count()
    &&& ops_width(ops) == value.op_count()
    &&& positive_widths(ops)
    &&& op_is(ops[0], creation_action(value), old[i].id, Key::Prop(key), false, pred_for_key(props_at(old, i), key@))
    &&& crate::new_value::child_ops(ops, 0, value, local_opid(start, actor))
    &&& crate::new_value::added_in_range(new, old.len() as int, start as int, start + value.op_count(), actor)
    &&& value is Primitive ==> new.len() == old.len()
    &&& !(value is Primitive) ==> new.len() > old.len() && new.last().id == ObjectId::Id(local_opid(start, actor))
        && crate::new_value::created_body(new.last().body, value, start, actor)
}

/// The effect of deleting key `key` of the map at position `i`.
pub open spec fn map_delete_effect(old: Seq<StateObject>, new: Seq<StateObject>, i: int, key: String, ops: Seq<Op>) -> bool {
    &&& others_kept(old, new, i)
    &&& new.len() == old.len()
    &&& new[i].body is MapObject
    &&& new[i].body->MapObject_0 == old[i].body->MapObject_0
    &&& prop_removed(props_at(old, i), props_at(new, i), key@)
    &&& ops.len() == 1
    &&& ops_width(ops) == 1
    &&& positive_widths(ops)
    &&& op_is(ops[0], OpType::Del(1), old[i].id, Key::Prop(key), false, pred_for_key(props_at(old, i), key@))
}

/// The op ids of the register under `key`, or none.
fn key_pred(props: &Vec<(String, MultiValue)>, key: &String) -> (r: Vec<OpId>)
    ensures
        r@ == pred_for_key(props@, key@),
{
    proof {
        lemma_prop_index(props@, key@);
    }
    match find_prop(props, key) {
        Some(j) => props[j].1.opids(),
        None => Vec::new(),
    }
}

/// Sets key `key` of the map at position `i`.
fn set_in_map(tree: &mut StateTree, i: usize, key: &String, payload: SetOrInsertPayload<Value>) -> (r: LocalOperationResult)
    requires
        old(tree).wf(),
        i < old(tree).objects@.len(),
        old(tree).objects@[i as int].body is MapObject,
        fits(payload.value),
        payload.start_op + payload.value.op_count() <= u64::MAX,
    ensures
        final(tree).wf(),
        map_set_effect(
            old(tree).objects@,
            final(tree).objects@,
            i as int,
            *key,
            payload.value,
            payload.start_op,
            payload.actor,
            r.new_ops@,
        ),
{
    let ghost objs0 = tree.objects@;
    let SetOrInsertPayload { start_op, actor, value } = payload;
    let id = tree.objects[i].id.copy();
    let pred = match &tree.objects[i].body {
        ObjectBody::MapObject(_, props) => key_pred(props, key),
        _ => unreached(),
    };
    let mut ops: Vec<Op> = Vec::new();
    let (entry, _next) = tree.new_value(value, &id, Key::Prop(key.clone()), false, pred, start_op, &actor, &mut ops);
    proof {
        assert(tree.objects@[i as int] == tree.objects@.subrange(0, objs0.len() as int)[i as int]);
        lemma_object_index(objs0, ObjectId::Root);
    }
    let ghost objs1 = tree.objects@;
    let body = tree.swap_body(i, ObjectBody::MapObject(MapType::Plain, Vec::new()));
    match body {
        ObjectBody::MapObject(mt, props) => {
            let mut props = props;
            let mv = MultiValue::new_single(OpId::new(start_op, &actor), entry);
            put_prop(&mut props, key.clone(), mv);
            tree.swap_body(i, ObjectBody::MapObject(mt, props));
            proof {
                assert forall|j: int| 0 <= j < objs0.len() && j != i implies #[trigger] tree.objects@[j] == objs0[j] by {
                    assert(objs1[j] == objs1.subrange(0, objs0.len() as int)[j]);
                }
            }
        },
        _ => unreached(),
    }
    LocalOperationResult { new_ops: ops }
}

/// Deletes key `key` of the map at position `i`.
fn delete_in_map(tree: &mut StateTree, i: usize, key: &String) -> (r: LocalOperationResult)
    requires
        old(tree).wf(),
        i < old(tree).objects@.len(),
        old(tree).objects@[i as int].body is MapObject,
    ensures
        final(tree).wf(),
        map_delete_effect(old(tree).objects@, final(tree).objects@, i as int, *key, r.new_ops@),
{
    let ghost objs0 = tree.objects@;
    let id = tree.objects[i].id.copy();
    proof {
        lemma_object_index(objs0, ObjectId::Root);
    }
    let body = tree.swap_body(i, ObjectBody::MapObject(MapType::Plain, Vec::new()));
    match body {
        ObjectBody::MapObject(mt, props) => {
            let pred = key_pred(&props, key);
            let mut props = props;
            remove_prop(&mut props, key);
            tree.swap_body(i, ObjectBody::MapObject(mt, props));
            let mut ops: Vec<Op> = Vec::new();
            ops.push(Op { action: OpType::Del(1), obj: id, key: Key::Prop(key.clone()), insert: false, pred });
            proof {
                lemma_width_one(ops@);
                assert forall|j: int| 0 <= j < objs0.len() && j != i implies #[trigger] tree.objects@[j] == objs0[j] by {
                }
            }
            LocalOperationResult { new_ops: ops }
        },
        _ => unreached(),
    }
}

/// The position of a map-like object the tree holds.
fn map_position(tree: &StateTree, id: &ObjectId) -> (r: usize)
    requires
        tree.wf(),
        object_index(tree.objects@, *id) >= 0,
        tree.objects@[object_index(tree.objects@, *id)].body is MapObject,
    ensures
        r as int == object_index(tree.objects@, *id),
        r < tree.objects@.len(),
{
    proof {
        lemma_object_index(tree.objects@, *id);
    }
    match tree.find_object(id) {
        Some(i) => i,
        None => unreached(),
    }
}

/// The map-like object `id` is in the tree.
pub open spec fn map_ok(objs: Seq<StateObject>, id: ObjectId) -> bool {
    object_index(objs, id) >= 0 && objs[object_index(objs, id)].body is MapObject
}

impl ResolvedRootMut {
    /// Sets `key` of the root object.
    pub fn set_key(&self, tree: &mut StateTree, key: &String, payload: SetOrInsertPayload<Value>) -> (r: LocalOperationResult)
        requires
            old(tree).wf(),
            fits(payload.value),
            payload.start_op + payload.value.op_count() <= u64::MAX,
        ensures
            final(tree).wf(),
            map_set_effect(
                old(tree).objects@,
                final(tree).objects@,
                object_index(old(tree).objects@, ObjectId::Root),
                *key,
                payload.value,
                payload.start_op,
                payload.actor,
                r.new_ops@,
            ),
    {
        let i = map_position(tree, &ObjectId::Root);
        set_in_map(tree, i, key, payload)
    }

    /// Deletes `key` of the root object.
    pub fn delete_key(&self, tree: &mut StateTree, key: &String) -> (r: LocalOperationResult)
        requires
            old(tree).wf(),
        ensures
            final(tree).wf(),
            map_delete_effect(
                old(tree).objects@,
                final(tree).objects@,
                object_index(old(tree).objects@, ObjectId::Root),
                *key,
                r.new_ops@,
            ),
    {
        let i = map_position(tree, &ObjectId::Root);
        delete_in_map(tree, i, key)
    }
}

impl ResolvedMapMut {
    /// Sets `key` of this map.
    pub fn set_key(&self, tree: &mut StateTree, key: &String, payload: SetOrInsertPayload<Value>) -> (r: LocalOperationResult)
        requires
            old(tree).wf(),
            map_ok(old(tree).objects@, self.object_id),
            fits(payload.value),
            payload.start_op + payload.value.op_count() <= u64::MAX,
        ensures
            final(tree).wf(),
            map_set_effect(
                old(tree).objects@,
                final(tree).objects@,
                object_index(old(tree).objects@, self.object_id),
                *key,
                payload.value,
                payload.start_op,
                payload.actor,
                r.new_ops@,
            ),
    {
        let i = map_position(tree, &self.object_id);
        set_in_map(tree, i, key, payload)
    }

    /// Deletes `key` of this map.
    pub fn delete_key(&self, tree: &mut StateTree, key: &String) -> (r: LocalOperationResult)
        requires
            old(tree).wf(),
            map_ok(old(tree).objects@, self.object_id),
        ensures
            final(tree).wf(),
            map_delete_effect(
                old(tree).objects@,
                final(tree).objects@,
                object_index(old(tree).objects@, self.object_id),
                *key,
                r.new_ops@,
            ),
    {
        let i = map_position(tree, &self.object_id);
        delete_in_map(tree, i, key)
    }
}

impl ResolvedTableMut {
    /// Sets `key` of this table.
    pub fn set_key(&self, tree: &mut StateTree, key: &String, payload: SetOrInsertPayload<Value>) -> (r: LocalOperationResult)
        requires
            old(tree).wf(),
            map_ok(old(tree).objects@, self.object_id),
            fits(payload.value),
            payload.start_op + payload.value.op_count() <= u64::MAX,
        ensures
            final(tree).wf(),
            map_set_effect(
                old(tree).objects@,
                final(tree).objects@,
                object_index(old(tree).objects@, self.object_id),
                *key,
                payload.value,
                payload.start_op,
                payload.actor,
                r.new_ops@,
            ),
    {
        let i = map_position(tree, &self.object_id);
        set_in_map(tree, i, key, payload)
    }

    /// Deletes `key` of this table.
    pub fn delete_key(&self, tree: &mut StateTree, key: &String) -> (r: LocalOperationResult)
        requires
            old(tree).wf(),
            map_ok(old(tree).objects@, self.object_id),
        ensures
            final(tree).wf(),
            map_delete_effect(
                old(tree).objects@,
                final(tree).objects@,
                object_index(old(tree).objects@, self.object_id),
                *key,
                r.new_ops@,
            ),
    {
        let i = map_position(tree, &self.object_id);
        delete_in_map(tree, i, key)
    }
}

/// The scalar a `Set` op assigns, when it may stand in a `MultiSet`: not a
/// counter, a timestamp or a cursor.
pub open spec fn prim_of(a: OpType) -> Option<ScalarValue> {
    match a {
        OpType::SetScalar(v) => match v {
            ScalarValue::Counter(_) => None,
            ScalarValue::Timestamp(_) => None,
            ScalarValue::Cursor(_) => None,
            _ => Some(v),
        },
        _ => None,
    }
}

/// The scalars a run of ops assigns, in order.
pub open spec fn prims_of(ops: Seq<Op>) -> Seq<ScalarValue>
    decreases ops.len(),
{
    if ops.len() == 0 {
        Seq::empty()
    } else {
        prims_of(ops.drop_last()).push(prim_of(ops.last().action)->Some_0)
    }
}

/// The preds of a run of ops, concatenated.
pub open spec fn preds_of(ops: Seq<Op>) -> Seq<OpId>
    decreases ops.len(),
{
    if ops.len() == 0 {
        Seq::empty()
    } else {
        preds_of(ops.drop_last()) + ops.last().pred@
    }
}

/// A run of ops that condenses: two or more sets of plain scalars.
pub open spec fn condensable(ops: Seq<Op>) -> bool {
    ops.len() >= 2 && forall|i: int| 0 <= i < ops.len() ==> (#[trigger] prim_of(ops[i].action)) is Some
}

/// The scalar a `Set` op assigns, unless it is a counter, a timestamp or a
/// cursor.
pub fn prim_from_op_action(action: &OpType) -> (r: Option<ScalarValue>)
    ensures
        r == prim_of(*action),
{
    match action {
        OpType::SetScalar(v) => match v {
            ScalarValue::Counter(_) => None,
            ScalarValue::Timestamp(_) => None,
            ScalarValue::Cursor(_) => None,
            _ => Some(v.copy()),
        },
        _ => None,
    }
}

/// Condenses a run of two or more inserts of plain scalars into one
/// `MultiSet` op keyed at the first anchor; any other run is kept as it is.
pub fn condense_insert_ops(ops: Vec<Op>) -> (r: Vec<Op>)
    ensures
        condensable(ops@) ==> r@.len() == 1 && r@[0].action is MultiSet && r@[0].action->MultiSet_0@
            == prims_of(ops@) && r@[0].obj == ops@[0].obj && r@[0].key == ops@[0].key && r@[0].insert
            && r@[0].pred@ == preds_of(ops@),
        !condensable(ops@) ==> r@ == ops@,
{
    if ops.len() < 2 {
        return ops;
    }
    let mut prims: Vec<ScalarValue> = Vec::new();
    let mut preds: Vec<OpId> = Vec::new();
    let mut i: usize = 0;
    assert(ops@.take(0) =~= Seq::<Op>::empty());
    while i < ops.len()
        invariant
            i <= ops@.len(),
            forall|t: int| 0 <= t < i ==> (#[trigger] prim_of(ops@[t].action)) is Some,
            prims@ == prims_of(ops@.take(i as int)),
            preds@ == preds_of(ops@.take(i as int)),
        decreases ops@.len() - i,
    {
        proof {
            assert(ops@.take(i + 1).drop_last() =~= ops@.take(i as int));
        }
        match prim_from_op_action(&ops[i].action) {
            None => {
                return ops;
            },
            Some(p) => {
                prims.push(p);
                let mut j: usize = 0;
                let ghost before = preds@;
                while j < ops[i].pred.len()
                    invariant
                        i < ops@.len(),
                        j <= ops@[i as int].pred@.len(),
                        preds@ == before + ops@[i as int].pred@.take(j as int),
                    decreases ops@[i as int].pred@.len() - j,
                {
                    preds.push(ops[i].pred[j].copy());
                    j = j + 1;
                    assert(preds@ =~= before + ops@[i as int].pred@.take(j as int));
                }
                assert(ops@[i as int].pred@.take(j as int) =~= ops@[i as int].pred@);
            },
        }
        i = i + 1;
    }
    assert(ops@.take(i as int) =~= ops@);
    let first = &ops[0];
    let op = Op { action: OpType::MultiSet(prims), obj: first.obj.copy(), key: first.key.copy(), insert: true, pred: preds };
    let mut r: Vec<Op> = Vec::new();
    r.push(op);
    r
}

/// The elements of the list at position `i`.
pub open spec fn list_at(objs: Seq<StateObject>, i: int) -> Seq<(OpId, ElementState<Seq<(OpId, StateTreeValue)>>)> {
    objs[i].body->ListObject_0@
}

/// The elements of the text at position `i`.
pub open spec fn text_at(objs: Seq<StateObject>, i: int) -> Seq<(OpId, ElementState<Seq<(OpId, String)>>)> {
    objs[i].body->TextObject_0@
}

/// The element an insert at `index` goes after: the head for the front.
pub open spec fn anchor_of<X>(s: Seq<(OpId, X)>, index: int) -> ElementId {
    if index == 0 {
        ElementId::Head
    } else {
        ElementId::Id(s[index - 1].0)
    }
}

/// The op ids of the register an element holds.
pub open spec fn elem_pred<V>(e: ElementState<Seq<(OpId, V)>>) -> Seq<OpId> {
    opids_of(e->Original_0)
}

/// The counter of the first op of the `j`-th value of a run inserted from
/// counter `start`.
pub open spec fn run_start(values: Seq<Value>, start: u64, j: int) -> int {
    start + items_op_count(values.take(j))
}

/// The element the `j`-th value of a run is inserted after: the anchor for
/// the first, the value before it for the others.
pub open spec fn run_anchor(values: Seq<Value>, anchor: ElementId, start: u64, actor: ActorId, j: int) -> ElementId {
    if j == 0 {
        anchor
    } else {
        ElementId::Id(local_opid(run_start(values, start, j - 1) as u64, actor))
    }
}

/// `raw` holds the ops of inserting `values` one after the other into object
/// `obj` after `anchor`, with chained anchors and no preds.
pub open spec fn run_ops(raw: Seq<Op>, values: Seq<Value>, obj: ObjectId, anchor: ElementId, start: u64, actor: ActorId) -> bool {
    &&& raw.len() == items_op_count(values)
    &&& forall|j: int|
        0 <= j < values.len() ==> op_is(
            #[trigger] raw[items_op_count(values.take(j)) as int],
            creation_action(values[j]),
            obj,
            Key::Elem(run_anchor(values, anchor, start, actor, j)),
            true,
            Seq::empty(),
        )
}

/// The elements a run of values becomes.
pub open spec fn run_elements(values: Seq<Value>, start: u64, actor: ActorId) -> Seq<
    (OpId, ElementState<Seq<(OpId, StateTreeValue)>>),
> {
    Seq::new(
        values.len(),
        |j: int|
            {
                let o = local_opid(run_start(values, start, j) as u64, actor);
                (o, ElementState::Original(seq![(o, created_entry(values[j], o))]))
            },
    )
}

/// `r` is `raw` condensed.
pub open spec fn condensed(raw: Seq<Op>, r: Seq<Op>) -> bool {
    &&& condensable(raw) ==> r.len() == 1 && r[0].action is MultiSet && r[0].action->MultiSet_0@ == prims_of(raw)
        && r[0].obj == raw[0].obj && r[0].key == raw[0].key && r[0].insert && r[0].pred@ == preds_of(raw)
    &&& !condensable(raw) ==> r == raw
}

/// The list object `id` is in the tree.
pub open spec fn list_ok(objs: Seq<StateObject>, id: ObjectId) -> bool {
    object_index(objs, id) >= 0 && objs[object_index(objs, id)].body is ListObject
}

/// The text object `id` is in the tree.
pub open spec fn text_ok(objs: Seq<StateObject>, id: ObjectId) -> bool {
    object_index(objs, id) >= 0 && objs[object_index(objs, id)].body is TextObject
}

/// The position of an object the tree holds.
fn position_of(tree: &StateTree, id: &ObjectId) -> (r: usize)
    requires
        object_index(tree.objects@, *id) >= 0,
    ensures
        r as int == object_index(tree.objects@, *id),
        r < tree.objects@.len(),
{
    proof {
        lemma_object_index(tree.objects@, *id);
    }
    match tree.find_object(id) {
        Some(i) => i,
        None => unreached(),
    }
}

/// A position that is not the root's holds no map.
proof fn lemma_not_root(objs: Seq<StateObject>, i: int)
    requires
        0 <= i < objs.len(),
        object_index(objs, ObjectId::Root) >= 0,
        objs[object_index(objs, ObjectId::Root)].body is MapObject,
        !(objs[i].body is MapObject),
    ensures
        i != object_index(objs, ObjectId::Root),
{
}

fn missing(index: u32) -> (r: InvalidChangeRequest)
    ensures
        r == (InvalidChangeRequest::MissingIndexError { index: index as u64 }),
{
    InvalidChangeRequest::MissingIndexError { index: index as u64 }
}

impl ResolvedListMut {
    /// Sets the element at `index`, keeping its element id.
    pub fn set(&self, tree: &mut StateTree, index: u32, payload: SetOrInsertPayload<Value>) -> (r: Result<
        LocalOperationResult,
        InvalidChangeRequest,
    >)
        requires
            old(tree).wf(),
            list_ok(old(tree).objects@, self.object_id),
            fits(payload.value),
            payload.start_op + payload.value.op_count() <= u64::MAX,
        ensures
            final(tree).wf(),
            ({
                let objs = old(tree).objects@;
                let i = object_index(objs, self.object_id);
                let s = list_at(objs, i);
                let o = local_opid(payload.start_op, payload.actor);
                if index < s.len() {
                    r is Ok && list_set_effect(
                        objs,
                        final(tree).objects@,
                        i,
                        index as int,
                        payload.value,
                        payload.start_op,
                        payload.actor,
                        r->Ok_0.new_ops@,
                    )
                } else {
                    r == Err::<LocalOperationResult, InvalidChangeRequest>(
                        InvalidChangeRequest::MissingIndexError { index: index as u64 },
                    ) && final(tree).objects@ == objs
                }
            }),
    {
        let ghost objs0 = tree.objects@;
        let i = position_of(tree, &self.object_id);
        proof {
            lemma_not_root(objs0, i as int);
        }
        let (elem, pred) = match &tree.objects[i].body {
            ObjectBody::ListObject(s) => {
                assert(crate::state_tree::body_wf(objs0[i as int].body));
                if (index as usize) >= s.len() {
                    return Err(missing(index));
                }
                let (e, mv) = s.get(index as usize);
                (e.copy(), mv.opids())
            },
            _ => unreached(),
        };
        let SetOrInsertPayload { start_op, actor, value } = payload;
        let id = tree.objects[i].id.copy();
        let mut ops: Vec<Op> = Vec::new();
        let (entry, _next) = tree.new_value(
            value,
            &id,
            Key::Elem(ElementId::Id(elem)),
            false,
            pred,
            start_op,
            &actor,
            &mut ops,
        );
        let ghost objs1 = tree.objects@;
        proof {
            assert(objs1[i as int] == objs1.subrange(0, objs0.len() as int)[i as int]);
            lemma_not_root(objs1, i as int);
        }
        let body = tree.swap_body(i, ObjectBody::MapObject(MapType::Plain, Vec::new()));
        match body {
            ObjectBody::ListObject(s) => {
                let mut s = s;
                s.set(index as usize, MultiValue::new_single(OpId::new(start_op, &actor), entry));
                tree.swap_body(i, ObjectBody::ListObject(s));
                proof {
                    assert forall|j: int| 0 <= j < objs0.len() && j != i implies #[trigger] tree.objects@[j] == objs0[j] by {
                        assert(objs1[j] == objs1.subrange(0, objs0.len() as int)[j]);
                    }
                }
            },
            _ => unreached(),
        }
        Ok(LocalOperationResult { new_ops: ops })
    }

    /// Inserts `values` at `index`, each after the one before, and emits
    /// their ops, condensed where they form a run of plain scalars.
    pub fn insert_many(&self, tree: &mut StateTree, index: u32, payload: SetOrInsertPayload<Vec<Value>>) -> (r: Result<
        LocalOperationResult,
        InvalidChangeRequest,
    >)
        requires
            old(tree).wf(),
            list_ok(old(tree).objects@, self.object_id),
            forall|j: int| 0 <= j < payload.value@.len() ==> fits(#[trigger] payload.value@[j]),
            payload.start_op + items_op_count(payload.value@) <= u64::MAX,
        ensures
            final(tree).wf(),
            ({
                let objs = old(tree).objects@;
                let i = object_index(objs, self.object_id);
                let s = list_at(objs, i);
                let vals = payload.value@;
                if index <= s.len() {
                    r is Ok && list_insert_effect(
                        objs,
                        final(tree).objects@,
                        i,
                        index as int,
                        vals,
                        payload.start_op,
                        payload.actor,
                        r->Ok_0.new_ops@,
                    )
                } else {
                    r == Err::<LocalOperationResult, InvalidChangeRequest>(
                        InvalidChangeRequest::MissingIndexError { index: index as u64 },
                    ) && final(tree).objects@ == objs
                }
            }),
    {
        let ghost objs0 = tree.objects@;
        let i = position_of(tree, &self.object_id);
        proof {
            lemma_not_root(objs0, i as int);
        }
        let anchor = match &tree.objects[i].body {
            ObjectBody::ListObject(s) => {
                assert(crate::state_tree::body_wf(objs0[i as int].body));
                if (index as usize) > s.len() {
                    return Err(missing(index));
                }
                if index == 0 {
                    ElementId::Head
                } else {
                    let (e, _mv) = s.get((index - 1) as usize);
                    ElementId::Id(e.copy())
                }
            },
            _ => unreached(),
        };
        assert(anchor == anchor_of(list_at(objs0, i as int), index as int));
        let SetOrInsertPayload { start_op, actor, value } = payload;
        let id = tree.objects[i].id.copy();
        let ghost vals = value@;
        let ghost elems = run_elements(vals, start_op, actor);
        let total = value.len();
        let mut rest = value;
        let mut ops: Vec<Op> = Vec::new();
        let mut regs: Vec<MultiValue> = Vec::new();
        let mut last = anchor.copy();
        let mut next: u64 = start_op;
        let mut j: usize = 0;
        assert(vals.take(0) =~= Seq::<Value>::empty());
        while rest.len() > 0
            invariant
                tree.wf(),
                total == vals.len(),
                j + rest@.len() == vals.len(),
                rest@ == vals.skip(j as int),
                forall|t: int| 0 <= t < vals.len() ==> fits(#[trigger] vals[t]),
                start_op + items_op_count(vals) <= u64::MAX,
                next == run_start(vals, start_op, j as int),
                last == run_anchor(vals, anchor, start_op, actor, j as int),
                ops@.len() == items_op_count(vals.take(j as int)),
                ops_width(ops@) == items_op_count(vals.take(j as int)),
                crate::new_value::unit_ops(ops@, 0),
                forall|t: int|
                    0 <= t < j ==> op_is(
                        #[trigger] ops@[items_op_count(vals.take(t)) as int],
                        creation_action(vals[t]),
                        id,
                        Key::Elem(run_anchor(vals, anchor, start_op, actor, t)),
                        true,
                        Seq::empty(),
                    ),
                regs@.len() == j,
                forall|t: int| 0 <= t < j ==> (#[trigger] regs@[t]).wf() && regs@[t]@ == elems[t].1->Original_0,
                tree.objects@.len() >= objs0.len(),
                tree.objects@.subrange(0, objs0.len() as int) == objs0,
                elems == run_elements(vals, start_op, actor),
                crate::new_value::added_in_range(tree.objects@, objs0.len() as int, start_op as int, next as int, actor),
                (forall|t: int| 0 <= t < j ==> (#[trigger] vals[t]) is Primitive) ==> tree.objects@.len() == objs0.len(),
            decreases rest@.len(),
        {
            let v = rest.remove(0);
            proof {
                assert(rest@ =~= vals.skip(j + 1));
                assert(v == vals[j as int]);
                crate::new_value::lemma_items_prefix(vals, j as int);
            }
            let ghost ops_before = ops@;
            let ghost objs_before = tree.objects@;
            let opid = OpId::new(next, &actor);
            let elem = ElementId::Id(opid.copy());
            let (entry, after) = tree.new_value(v, &id, Key::Elem(last), true, Vec::new(), next, &actor, &mut ops);
            regs.push(MultiValue::new_single(opid, entry));
            proof {
                assert forall|t: int| 0 <= t < j implies op_is(
                    #[trigger] ops@[items_op_count(vals.take(t)) as int],
                    creation_action(vals[t]),
                    id,
                    Key::Elem(run_anchor(vals, anchor, start_op, actor, t)),
                    true,
                    Seq::empty(),
                ) by {
                    lemma_items_take_mono(vals, t, j as int);
                    assert(ops@[items_op_count(vals.take(t)) as int] == ops@.subrange(0, ops_before.len() as int)[items_op_count(vals.take(t)) as int]);
                }
                assert(tree.objects@.subrange(0, objs0.len() as int) =~= objs_before.subrange(0, objs0.len() as int));
                crate::new_value::lemma_added_join(
                    objs_before,
                    tree.objects@,
                    objs0.len() as int,
                    objs0.len() as int,
                    start_op as int,
                    next as int,
                    after as int,
                    actor,
                );
                if forall|t: int| 0 <= t < j + 1 ==> (#[trigger] vals[t]) is Primitive {
                    assert(vals[j as int] is Primitive);
                }
                assert forall|t: int| 0 <= t < ops@.len() implies op_width(#[trigger] ops@[t]) == 1 by {
                    if t < ops_before.len() {
                        assert(ops@[t] == ops@.subrange(0, ops_before.len() as int)[t]);
                    }
                }
            }
            last = elem;
            next = after;
            j = j + 1;
        }
        proof {
            assert(vals.take(j as int) =~= vals);
        }
        let ghost objs1 = tree.objects@;
        proof {
            assert(objs1[i as int] == objs1.subrange(0, objs0.len() as int)[i as int]);
            lemma_not_root(objs1, i as int);
        }
        let raw_view = Ghost(ops@);
        let body = tree.swap_body(i, ObjectBody::MapObject(MapType::Plain, Vec::new()));
        match body {
            ObjectBody::ListObject(s) => {
                let mut s = s;
                let ghost s0 = s@;
                let mut k: usize = 0;
                let ghost all_regs = regs@;
                while regs.len() > 0
                    invariant
                        s.wf(),
                        elems == run_elements(vals, start_op, actor),
                        k + regs@.len() == total,
                        total == elems.len(),
                        regs@ == all_regs.skip(k as int),
                        all_regs.len() == total,
                        forall|t: int| 0 <= t < total ==> (#[trigger] all_regs[t]).wf() && all_regs[t]@ == elems[t].1->Original_0,
                        index <= s0.len(),
                        s@.len() == s0.len() + k,
                        forall|t: int| 0 <= t < total ==> (#[trigger] elems[t]).0 == all_regs[t]@[0].0 && all_regs[t]@.len() == 1,
                        s@ == s0.subrange(0, index as int) + elems.take(k as int) + s0.subrange(index as int, s0.len() as int),
                    decreases regs@.len(),
                {
                    let mv = regs.remove(0);
                    proof {
                        assert(regs@ =~= all_regs.skip(k + 1));
                        assert(mv == all_regs[k as int]);
                    }
                    let ghost before = s@;
                    let cur = s.len();
                    assert(index as int + k <= cur);
                    s.insert(index as usize + k, mv);
                    proof {
                        assert(elems[k as int].1 is Original);
                        assert(s@ == before.insert(index + k, elems[k as int]));
                        assert(elems.take(k + 1) =~= elems.take(k as int).push(elems[k as int]));
                    }
                    k = k + 1;
                    proof {
                        assert(s@ =~= s0.subrange(0, index as int) + elems.take(k as int) + s0.subrange(index as int, s0.len() as int));
                    }
                }
                assert(elems.take(k as int) =~= elems);
                tree.swap_body(i, ObjectBody::ListObject(s));
                proof {
                    assert forall|t: int| 0 <= t < objs0.len() && t != i implies #[trigger] tree.objects@[t] == objs0[t] by {
                        assert(objs1[t] == objs1.subrange(0, objs0.len() as int)[t]);
                    }
                }
            },
            _ => unreached(),
        }
        let new_ops = condense_insert_ops(ops);
        proof {
            lemma_prims_len(raw_view@);
            if condensable(raw_view@) {
                assert(op_width(new_ops@[0]) == raw_view@.len());
            } else {
                assert forall|t: int| 0 <= t < new_ops@.len() implies op_width(#[trigger] new_ops@[t]) >= 1 by {
                    assert(new_ops@[t] == raw_view@[t]);
                }
            }
            if condensable(raw_view@) {
                lemma_width_one(new_ops@);
            }
        }
        assert(run_ops(raw_view@, vals, objs0[i as int].id, anchor, start_op, actor));
        assert(condensed(raw_view@, new_ops@));
        assert(exists|raw: Seq<Op>|
            run_ops(
                raw,
                vals,
                objs0[i as int].id,
                anchor_of(list_at(objs0, i as int), index as int),
                start_op,
                actor,
            ) && condensed(raw, new_ops@));
        assert(others_kept(objs0, tree.objects@, i as int));
        assert(tree.objects@[i as int].body is ListObject);
        assert(list_at(tree.objects@, i as int) == list_at(objs0, i as int).subrange(0, index as int) + elems
            + list_at(objs0, i as int).subrange(index as int, list_at(objs0, i as int).len() as int));
        let r: Result<LocalOperationResult, InvalidChangeRequest> = Ok(LocalOperationResult { new_ops });
        assert(i as int == object_index(objs0, self.object_id));
        assert(run_ops(
            raw_view@,
            vals,
            objs0[object_index(objs0, self.object_id)].id,
            anchor_of(list_at(objs0, object_index(objs0, self.object_id)), index as int),
            start_op,
            actor,
        ) && condensed(raw_view@, r->Ok_0.new_ops@));
        r
    }
}

pub proof fn lemma_items_take_mono(vals: Seq<Value>, t: int, j: int)
    requires
        0 <= t < j <= vals.len(),
    ensures
        items_op_count(vals.take(t)) < items_op_count(vals.take(j)),
    decreases j - t,
{
    crate::new_value::lemma_items_prefix(vals, j - 1);
    crate::new_value::lemma_op_count_pos(vals[j - 1]);
    if t < j - 1 {
        lemma_items_take_mono(vals, t, j - 1);
    }
}

/// The elements a run of graphemes becomes, op ids counted up from `start`.
pub open spec fn text_run(gs: Seq<String>, start: u64, actor: ActorId) -> Seq<(OpId, ElementState<Seq<(OpId, String)>>)> {
    Seq::new(
        gs.len(),
        |j: int|
            {
                let o = local_opid((start + j) as u64, actor);
                (o, ElementState::Original(seq![(o, gs[j])]))
            },
    )
}

/// The strings of a run of graphemes as scalars.
pub open spec fn str_scalars(gs: Seq<String>) -> Seq<ScalarValue> {
    gs.map_values(|g: String| ScalarValue::Str(g))
}

/// The effect of removing element `index` of the sequence at position `i`,
/// whose element id and preds are given.
pub open spec fn removal_op(ops: Seq<Op>, obj: ObjectId, elem: OpId, pred: Seq<OpId>) -> bool {
    ops.len() == 1 && ops_width(ops) == 1 && positive_widths(ops) && op_is(ops[0], OpType::Del(1), obj, Key::Elem(ElementId::Id(elem)), false, pred)
}

impl ResolvedListMut {
    /// Removes the element at `index`.
    pub fn remove(&self, tree: &mut StateTree, index: u32) -> (r: Result<LocalOperationResult, InvalidChangeRequest>)
        requires
            old(tree).wf(),
            list_ok(old(tree).objects@, self.object_id),
        ensures
            final(tree).wf(),
            ({
                let objs = old(tree).objects@;
                let i = object_index(objs, self.object_id);
                let s = list_at(objs, i);
                if index < s.len() {
                    r is Ok && list_remove_effect(objs, final(tree).objects@, i, index as int, r->Ok_0.new_ops@)
                } else {
                    r == Err::<LocalOperationResult, InvalidChangeRequest>(
                        InvalidChangeRequest::MissingIndexError { index: index as u64 },
                    ) && final(tree).objects@ == objs
                }
            }),
    {
        let ghost objs0 = tree.objects@;
        let i = position_of(tree, &self.object_id);
        proof {
            lemma_not_root(objs0, i as int);
        }
        let id = tree.objects[i].id.copy();
        let (elem, pred) = match &tree.objects[i].body {
            ObjectBody::ListObject(s) => {
                assert(crate::state_tree::body_wf(objs0[i as int].body));
                if (index as usize) >= s.len() {
                    return Err(missing(index));
                }
                let (e, mv) = s.get(index as usize);
                (e.copy(), mv.opids())
            },
            _ => unreached(),
        };
        let body = tree.swap_body(i, ObjectBody::MapObject(MapType::Plain, Vec::new()));
        match body {
            ObjectBody::ListObject(s) => {
                let mut s = s;
                s.remove(index as usize);
                tree.swap_body(i, ObjectBody::ListObject(s));
            },
            _ => unreached(),
        }
        let mut ops: Vec<Op> = Vec::new();
        ops.push(Op { action: OpType::Del(1), obj: id, key: Key::Elem(ElementId::Id(elem)), insert: false, pred });
        proof {
            lemma_width_one(ops@);
        }
        Ok(LocalOperationResult { new_ops: ops })
    }

    /// A cursor at the element at `index`.
    pub fn get_cursor(&self, tree: &StateTree, index: u32) -> (r: Result<Cursor, InvalidChangeRequest>)
        requires
            tree.wf(),
            list_ok(tree.objects@, self.object_id),
        ensures
            ({
                let s = list_at(tree.objects@, object_index(tree.objects@, self.object_id));
                if index < s.len() {
                    r == Ok::<Cursor, InvalidChangeRequest>(
                        Cursor { index, object: self.object_id, elem_id: ElementId::Id(s[index as int].0) },
                    )
                } else {
                    r == Err::<Cursor, InvalidChangeRequest>(
                        InvalidChangeRequest::MissingIndexError { index: index as u64 },
                    )
                }
            }),
    {
        let i = position_of(tree, &self.object_id);
        match &tree.objects[i].body {
            ObjectBody::ListObject(s) => {
                assert(crate::state_tree::body_wf(tree.objects@[i as int].body));
                if (index as usize) >= s.len() {
                    return Err(missing(index));
                }
                let (e, _mv) = s.get(index as usize);
                Ok(Cursor { index, object: self.object_id.copy(), elem_id: ElementId::Id(e.copy()) })
            },
            _ => unreached(),
        }
    }
}

impl ResolvedTextMut {
    /// Inserts single graphemes at `index`: one op, a `Set` for one grapheme
    /// and a `MultiSet` for more.
    pub fn insert_many(&self, tree: &mut StateTree, index: u32, payload: SetOrInsertPayload<Vec<String>>) -> (r: Result<
        LocalOperationResult,
        InvalidChangeRequest,
    >)
        requires
            old(tree).wf(),
            text_ok(old(tree).objects@, self.object_id),
            payload.start_op + payload.value@.len() <= u64::MAX,
            forall|j: int| 0 <= j < payload.value@.len() ==> grapheme_count_of((#[trigger] payload.value@[j])@) == 1,
        ensures
            final(tree).wf(),
            ({
                let objs = old(tree).objects@;
                let i = object_index(objs, self.object_id);
                let s = text_at(objs, i);
                let gs = payload.value@;
                let key = Key::Elem(anchor_of(s, index as int));
                if index <= s.len() {
                    r is Ok && text_insert_effect(
                        objs,
                        final(tree).objects@,
                        i,
                        index as int,
                        gs,
                        payload.start_op,
                        payload.actor,
                        r->Ok_0.new_ops@,
                    )
                } else {
                    r == Err::<LocalOperationResult, InvalidChangeRequest>(
                        InvalidChangeRequest::MissingIndexError { index: index as u64 },
                    ) && final(tree).objects@ == objs
                }
            }),
    {
        let ghost objs0 = tree.objects@;
        let i = position_of(tree, &self.object_id);
        proof {
            lemma_not_root(objs0, i as int);
        }
        let anchor = match &tree.objects[i].body {
            ObjectBody::TextObject(s) => {
                assert(crate::state_tree::body_wf(objs0[i as int].body));
                if (index as usize) > s.len() {
                    return Err(missing(index));
                }
                if index == 0 {
                    ElementId::Head
                } else {
                    let (e, _g) = s.get((index - 1) as usize);
                    ElementId::Id(e.copy())
                }
            },
            _ => unreached(),
        };
        assert(anchor == anchor_of(text_at(objs0, i as int), index as int));
        let id = tree.objects[i].id.copy();
        let SetOrInsertPayload { start_op, actor, value } = payload;
        let ghost gs = value@;
        let ghost run = text_run(gs, start_op, actor);
        let n = value.len();
        let mut chars: Vec<ScalarValue> = Vec::new();
        let body = tree.swap_body(i, ObjectBody::MapObject(MapType::Plain, Vec::new()));
        match body {
            ObjectBody::TextObject(s) => {
                let mut s = s;
                let ghost s0 = s@;
                let mut j: usize = 0;
                while j < n
                    invariant
                        s.wf(),
                        n == gs.len(),
                        value@ == gs,
                        run == text_run(gs, start_op, actor),
                        forall|t: int| 0 <= t < gs.len() ==> grapheme_count_of((#[trigger] gs[t])@) == 1,
                        start_op + gs.len() <= u64::MAX,
                        j <= n,
                        index <= s0.len(),
                        s@.len() == s0.len() + j,
                        s@ == s0.subrange(0, index as int) + run.take(j as int) + s0.subrange(index as int, s0.len() as int),
                        chars@ == str_scalars(gs).take(j as int),
                    decreases n - j,
                {
                    let g = value[j].clone();
                    chars.push(ScalarValue::Str(value[j].clone()));
                    let o = OpId::new(start_op + j as u64, &actor);
                    let ghost before = s@;
                    let cur = s.len();
                    assert(index as int + j <= cur);
                    s.insert(index as usize + j, MultiGrapheme::new_from_grapheme_cluster(o, g));
                    proof {
                        assert(s@ == before.insert(index + j, run[j as int]));
                        assert(run.take(j + 1) =~= run.take(j as int).push(run[j as int]));
                        assert(str_scalars(gs).take(j + 1) =~= str_scalars(gs).take(j as int).push(ScalarValue::Str(gs[j as int])));
                    }
                    j = j + 1;
                    proof {
                        assert(s@ =~= s0.subrange(0, index as int) + run.take(j as int) + s0.subrange(index as int, s0.len() as int));
                    }
                }
                assert(run.take(j as int) =~= run);
                assert(str_scalars(gs).take(j as int) =~= str_scalars(gs));
                tree.swap_body(i, ObjectBody::TextObject(s));
            },
            _ => unreached(),
        }
        let mut ops: Vec<Op> = Vec::new();
        if n == 1 {
            let c = chars.remove(0);
            ops.push(Op { action: OpType::SetScalar(c), obj: id, key: Key::Elem(anchor), insert: true, pred: Vec::new() });
            proof {
                lemma_width_one(ops@);
            }
        } else if n > 1 {
            ops.push(Op { action: OpType::MultiSet(chars), obj: id, key: Key::Elem(anchor), insert: true, pred: Vec::new() });
            proof {
                lemma_width_one(ops@);
            }
        }
        Ok(LocalOperationResult { new_ops: ops })
    }

    /// Sets the grapheme at `index`, keeping its element id.
    pub fn set(&self, tree: &mut StateTree, index: u32, payload: SetOrInsertPayload<String>) -> (r: Result<
        LocalOperationResult,
        InvalidChangeRequest,
    >)
        requires
            old(tree).wf(),
            text_ok(old(tree).objects@, self.object_id),
            grapheme_count_of(payload.value@) == 1,
        ensures
            final(tree).wf(),
            ({
                let objs = old(tree).objects@;
                let i = object_index(objs, self.object_id);
                let s = text_at(objs, i);
                let o = local_opid(payload.start_op, payload.actor);
                if index < s.len() {
                    r is Ok && text_set_effect(
                        objs,
                        final(tree).objects@,
                        i,
                        index as int,
                        payload.value,
                        payload.start_op,
                        payload.actor,
                        r->Ok_0.new_ops@,
                    )
                } else {
                    r == Err::<LocalOperationResult, InvalidChangeRequest>(
                        InvalidChangeRequest::MissingIndexError { index: index as u64 },
                    ) && final(tree).objects@ == objs
                }
            }),
    {
        let ghost objs0 = tree.objects@;
        let i = position_of(tree, &self.object_id);
        proof {
            lemma_not_root(objs0, i as int);
        }
        let id = tree.objects[i].id.copy();
        let (elem, pred) = match &tree.objects[i].body {
            ObjectBody::TextObject(s) => {
                assert(crate::state_tree::body_wf(objs0[i as int].body));
                if (index as usize) >= s.len() {
                    return Err(missing(index));
                }
                let (e, g) = s.get(index as usize);
                (e.copy(), g.opids())
            },
            _ => unreached(),
        };
        let SetOrInsertPayload { start_op, actor, value } = payload;
        let body = tree.swap_body(i, ObjectBody::MapObject(MapType::Plain, Vec::new()));
        match body {
            ObjectBody::TextObject(s) => {
                let mut s = s;
                s.set(index as usize, MultiGrapheme::new_from_grapheme_cluster(OpId::new(start_op, &actor), value.clone()));
                tree.swap_body(i, ObjectBody::TextObject(s));
            },
            _ => unreached(),
        }
        let mut ops: Vec<Op> = Vec::new();
        ops.push(
            Op {
                action: OpType::SetScalar(ScalarValue::Str(value)),
                obj: id,
                key: Key::Elem(ElementId::Id(elem)),
                insert: false,
                pred,
            },
        );
        proof {
            lemma_width_one(ops@);
        }
        Ok(LocalOperationResult { new_ops: ops })
    }

    /// Removes the grapheme at `index`.
    pub fn remove(&self, tree: &mut StateTree, index: u32) -> (r: Result<LocalOperationResult, InvalidChangeRequest>)
        requires
            old(tree).wf(),
            text_ok(old(tree).objects@, self.object_id),
        ensures
            final(tree).wf(),
            ({
                let objs = old(tree).objects@;
                let i = object_index(objs, self.object_id);
                let s = text_at(objs, i);
                if index < s.len() {
                    r is Ok && text_remove_effect(objs, final(tree).objects@, i, index as int, r->Ok_0.new_ops@)
                } else {
                    r == Err::<LocalOperationResult, InvalidChangeRequest>(
                        InvalidChangeRequest::MissingIndexError { index: index as u64 },
                    ) && final(tree).objects@ == objs
                }
            }),
    {
        let ghost objs0 = tree.objects@;
        let i = position_of(tree, &self.object_id);
        proof {
            lemma_not_root(objs0, i as int);
        }
        let id = tree.objects[i].id.copy();
        let (elem, pred) = match &tree.objects[i].body {
            ObjectBody::TextObject(s) => {
                assert(crate::state_tree::body_wf(objs0[i as int].body));
                if (index as usize) >= s.len() {
                    return Err(missing(index));
                }
                let (e, g) = s.get(index as usize);
                (e.copy(), g.opids())
            },
            _ => unreached(),
        };
        let body = tree.swap_body(i, ObjectBody::MapObject(MapType::Plain, Vec::new()));
        match body {
            ObjectBody::TextObject(s) => {
                let mut s = s;
                s.remove(index as usize);
                tree.swap_body(i, ObjectBody::TextObject(s));
            },
            _ => unreached(),
        }
        let mut ops: Vec<Op> = Vec::new();
        ops.push(Op { action: OpType::Del(1), obj: id, key: Key::Elem(ElementId::Id(elem)), insert: false, pred });
        proof {
            lemma_width_one(ops@);
        }
        Ok(LocalOperationResult { new_ops: ops })
    }

    /// A cursor at the grapheme at `index`.
    pub fn get_cursor(&self, tree: &StateTree, index: u32) -> (r: Result<Cursor, InvalidChangeRequest>)
        requires
            tree.wf(),
            text_ok(tree.objects@, self.object_id),
        ensures
            ({
                let s = text_at(tree.objects@, object_index(tree.objects@, self.object_id));
                if index < s.len() {
                    r == Ok::<Cursor, InvalidChangeRequest>(
                        Cursor { index, object: self.object_id, elem_id: ElementId::Id(s[index as int].0) },
                    )
                } else {
                    r == Err::<Cursor, InvalidChangeRequest>(
                        InvalidChangeRequest::MissingIndexError { index: index as u64 },
                    )
                }
            }),
    {
        let i = position_of(tree, &self.object_id);
        match &tree.objects[i].body {
            ObjectBody::TextObject(s) => {
                assert(crate::state_tree::body_wf(tree.objects@[i as int].body));
                if (index as usize) >= s.len() {
                    return Err(missing(index));
                }
                let (e, _g) = s.get(index as usize);
                Ok(Cursor { index, object: self.object_id.copy(), elem_id: ElementId::Id(e.copy()) })
            },
            _ => unreached(),
        }
    }
}

/// A register after an increment by `by`: its default value, when a
/// counter, moves by `by`, wrapping at the bounds of `i64`.
pub open spec fn incremented(reg: Seq<(OpId, StateTreeValue)>, by: i64) -> Seq<(OpId, StateTreeValue)> {
    let m = max_index(reg);
    match reg[m].1 {
        StateTreeValue::Leaf(ScalarValue::Counter(c)) => reg.update(
            m,
            (reg[m].0, StateTreeValue::Leaf(ScalarValue::Counter(c.wrapping_add(by)))),
        ),
        _ => reg,
    }
}

/// The register `mv` after an increment by `by`.
fn bumped(mv: &MultiValue, by: i64) -> (r: MultiValue)
    requires
        mv.wf(),
    ensures
        r@ == incremented(mv@, by),
        r.wf(),
{
    let m = max_entry_index(&mv.entries);
    let mut r = mv.duplicate();
    match &mv.entries[m].1 {
        StateTreeValue::Leaf(ScalarValue::Counter(c)) => {
            let o = mv.entries[m].0.copy();
            r.entries.set(m, (o, StateTreeValue::Leaf(ScalarValue::Counter(c.wrapping_add(by)))));
            proof {
                assert forall|a: int, b: int| 0 <= a < r@.len() && 0 <= b < r@.len() && a != b implies !crate::protocol::opid_eq(
                    r@[a].0,
                    r@[b].0,
                ) by {
                    assert(r@[a].0 == mv@[a].0);
                    assert(r@[b].0 == mv@[b].0);
                }
            }
        },
        _ => {},
    }
    r
}

impl ResolvedCounterMut {
    /// Increments the counter by `by`, wrapping at the bounds of `i64`; the op
    /// supersedes every op id the register holds.
    pub fn increment(&self, tree: &mut StateTree, by: i64) -> (r: LocalOperationResult)
        requires
            old(tree).wf(),
            register_at(old(tree).objects@, self.slot) is Some,
        ensures
            final(tree).wf(),
            counter_effect(old(tree).objects@, final(tree).objects@, self.slot, by, r.new_ops@),
    {
        let ghost objs0 = tree.objects@;
        proof {
            lemma_object_index(objs0, self.slot.container);
        }
        let ci = position_of(tree, &self.slot.container);
        assert(crate::state_tree::body_wf(objs0[ci as int].body));
        let (pred, mv2, pos) = match (&tree.objects[ci].body, &self.slot.step) {
            (ObjectBody::MapObject(_, props), PathElement::Key(k)) => {
                proof {
                    lemma_prop_index(props@, k@);
                }
                let j = find_prop(props, k).unwrap();
                (props[j].1.opids(), bumped(&props[j].1, by), j)
            },
            (ObjectBody::ListObject(s), PathElement::Index(n)) => {
                let (_e, mv) = s.get(*n as usize);
                (mv.opids(), bumped(mv, by), *n as usize)
            },
            _ => unreached(),
        };
        proof {
            lemma_object_index(objs0, ObjectId::Root);
        }
        let body = tree.swap_body(ci, ObjectBody::MapObject(MapType::Plain, Vec::new()));
        match body {
            ObjectBody::MapObject(mt, props) => {
                let mut props = props;
                let ghost p0 = props@;
                let k = props[pos].0.clone();
                props.set(pos, (k, mv2));
                proof {
                    assert forall|k2: Seq<char>| true implies #[trigger] crate::state_tree::prop_index(props@, k2)
                        == crate::state_tree::prop_index(p0, k2) by {
                        crate::state_tree::lemma_prop_index_update(p0, pos as int, props@[pos as int], k2);
                    }
                    assert forall|t: int| 0 <= t < props@.len() implies (#[trigger] props@[t]).1.wf() by {
                        if t != pos {
                            assert(props@[t] == p0[t]);
                        }
                    }
                    let kk = self.slot.step->Key_0;
                    crate::state_tree::lemma_prop_index(p0, kk@);
                    assert forall|k2: Seq<char>| k2 != kk@ implies #[trigger] crate::state_tree::lookup_prop(props@, k2)
                        == crate::state_tree::lookup_prop(p0, k2) by {
                        crate::state_tree::lemma_prop_index(p0, k2);
                        if crate::state_tree::prop_index(p0, k2) >= 0 {
                            assert(crate::state_tree::prop_index(p0, k2) != pos);
                        }
                    }
                }
                tree.swap_body(ci, ObjectBody::MapObject(mt, props));
            },
            ObjectBody::ListObject(s) => {
                let mut s = s;
                s.set(pos, mv2);
                tree.swap_body(ci, ObjectBody::ListObject(s));
            },
            _ => unreached(),
        }
        let mut ops: Vec<Op> = Vec::new();
        ops.push(
            Op {
                action: OpType::Inc(by),
                obj: self.slot.container.copy(),
                key: self.slot.key.copy(),
                insert: false,
                pred,
            },
        );
        proof {
            lemma_width_one(ops@);
        }
        LocalOperationResult { new_ops: ops }
    }
}

impl ResolvedPathMut {
    pub fn new_root() -> (r: ResolvedPathMut)
        ensures
            r.target.model() == Resolution::Root,
    {
        ResolvedPathMut { target: TargetMut::Root(ResolvedRootMut {}) }
    }

    pub fn new_map(object_id: ObjectId, slot: Slot) -> (r: ResolvedPathMut)
        ensures
            r.target == TargetMut::Mapping(ResolvedMapMut { object_id, slot }),
    {
        ResolvedPathMut { target: TargetMut::Mapping(ResolvedMapMut { object_id, slot }) }
    }

    pub fn new_table(object_id: ObjectId, slot: Slot) -> (r: ResolvedPathMut)
        ensures
            r.target == TargetMut::Table(ResolvedTableMut { object_id, slot }),
    {
        ResolvedPathMut { target: TargetMut::Table(ResolvedTableMut { object_id, slot }) }
    }

    pub fn new_list(object_id: ObjectId, slot: Slot) -> (r: ResolvedPathMut)
        ensures
            r.target == TargetMut::List(ResolvedListMut { object_id, slot }),
    {
        ResolvedPathMut { target: TargetMut::List(ResolvedListMut { object_id, slot }) }
    }

    pub fn new_text(object_id: ObjectId, slot: Slot) -> (r: ResolvedPathMut)
        ensures
            r.target == TargetMut::Text(ResolvedTextMut { object_id, slot }),
    {
        ResolvedPathMut { target: TargetMut::Text(ResolvedTextMut { object_id, slot }) }
    }

    pub fn new_counter(slot: Slot) -> (r: ResolvedPathMut)
        ensures
            r.target == TargetMut::Counter(ResolvedCounterMut { slot }),
    {
        ResolvedPathMut { target: TargetMut::Counter(ResolvedCounterMut { slot }) }
    }

    pub fn new_primitive(slot: Slot) -> (r: ResolvedPathMut)
        ensures
            r.target == TargetMut::Primitive(ResolvedPrimitiveMut { slot }),
    {
        ResolvedPathMut { target: TargetMut::Primitive(ResolvedPrimitiveMut { slot }) }
    }

    pub fn new_character(slot: Slot) -> (r: ResolvedPathMut)
        ensures
            r.target == TargetMut::Character(ResolvedCharMut { slot }),
    {
        ResolvedPathMut { target: TargetMut::Character(ResolvedCharMut { slot }) }
    }

    /// The mutating view of a resolution.
    pub fn from_resolution(r: Resolution) -> (out: ResolvedPathMut)
        ensures
            out.target.model() == r,
    {
        match r {
            Resolution::Root => ResolvedPathMut::new_root(),
            Resolution::Composite(t, o, slot) => match t {
                ObjType::MapLike(MapType::Plain) => ResolvedPathMut::new_map(o, slot),
                ObjType::MapLike(MapType::Table) => ResolvedPathMut::new_table(o, slot),
                ObjType::Sequence(SeqType::List) => ResolvedPathMut::new_list(o, slot),
                ObjType::Sequence(SeqType::Text) => ResolvedPathMut::new_text(o, slot),
            },
            Resolution::Character(slot) => ResolvedPathMut::new_character(slot),
            Resolution::Counter(slot) => ResolvedPathMut::new_counter(slot),
            Resolution::Primitive(slot) => ResolvedPathMut::new_primitive(slot),
        }
    }

    /// The current value of what the path names; for a register, its default
    /// value.
    pub fn default_value(&self, tree: &StateTree) -> (r: Value)
        requires
            tree.wf(),
            self.target is Character ==> char_slot_ok(tree.objects@, self.target->Character_0.slot),
        ensures
            r.model() == target_view(tree.objects@, self.target.model()),
    {
        let fuel = tree.objects.len();
        match &self.target {
            TargetMut::Root(_) => tree.value_of(&ObjectId::Root, fuel),
            TargetMut::Mapping(m) => tree.value_of(&m.object_id, fuel),
            TargetMut::Table(m) => tree.value_of(&m.object_id, fuel),
            TargetMut::List(m) => tree.value_of(&m.object_id, fuel),
            TargetMut::Text(m) => tree.value_of(&m.object_id, fuel),
            TargetMut::Character(c) => char_value(tree, &c.slot),
            TargetMut::Counter(c) => register_value(tree, &c.slot),
            TargetMut::Primitive(p) => register_value(tree, &p.slot),
        }
    }
}

impl StateTree {
    /// The mutating view of what `path` names, if anything.
    pub fn resolve_path_mut(&self, path: &Path) -> (r: Option<ResolvedPathMut>)
        requires
            self.wf(),
        ensures
            match crate::state_tree::resolve(self.objects@, path@) {
                Some(res) => r is Some && r->Some_0.target.model() == res,
                None => r is None,
            },
    {
        match self.locate(path) {
            Some(res) => Some(ResolvedPathMut::from_resolution(res)),
            None => None,
        }
    }
}

pub proof fn lemma_prims_len(ops: Seq<Op>)
    ensures
        prims_of(ops).len() == ops.len(),
    decreases ops.len(),
{
    if ops.len() > 0 {
        lemma_prims_len(ops.drop_last());
    }
}

pub proof fn lemma_width_one(ops: Seq<Op>)
    requires
        ops.len() == 1,
    ensures
        ops_width(ops) == crate::new_value::op_width(ops[0]),
{
    assert(ops.drop_last() =~= Seq::<Op>::empty());
    assert(ops_width(ops.drop_last()) == 0);
}

impl ResolvedListMut {
    /// Inserts one value at `index`.
    pub fn insert(&self, tree: &mut StateTree, index: u32, payload: SetOrInsertPayload<Value>) -> (r: Result<
        LocalOperationResult,
        InvalidChangeRequest,
    >)
        requires
            old(tree).wf(),
            list_ok(old(tree).objects@, self.object_id),
            fits(payload.value),
            payload.start_op + payload.value.op_count() <= u64::MAX,
        ensures
            final(tree).wf(),
            ({
                let objs = old(tree).objects@;
                let i = object_index(objs, self.object_id);
                let s = list_at(objs, i);
                let vals = seq![payload.value];
                if index <= s.len() {
                    &&& r is Ok
                    &&& others_kept(objs, final(tree).objects@, i)
                    &&& final(tree).objects@[i].body is ListObject
                    &&& crate::new_value::added_in_range(
                        final(tree).objects@,
                        objs.len() as int,
                        payload.start_op as int,
                        payload.start_op + payload.value.op_count(),
                        payload.actor,
                    )
                    &&& payload.value is Primitive ==> final(tree).objects@.len() == objs.len()
                    &&& list_at(final(tree).objects@, i) == s.subrange(0, index as int) + run_elements(
                        vals,
                        payload.start_op,
                        payload.actor,
                    ) + s.subrange(index as int, s.len() as int)
                    &&& run_ops(
                        r->Ok_0.new_ops@,
                        vals,
                        objs[i].id,
                        anchor_of(s, index as int),
                        payload.start_op,
                        payload.actor,
                    )
                } else {
                    r == Err::<LocalOperationResult, InvalidChangeRequest>(
                        InvalidChangeRequest::MissingIndexError { index: index as u64 },
                    ) && final(tree).objects@ == objs
                }
            }),
    {
        let ghost v = payload.value;
        let SetOrInsertPayload { start_op, actor, value } = payload;
        let mut values: Vec<Value> = Vec::new();
        values.push(value);
        assert(values@ =~= seq![v]);
        proof {
            crate::mutation::lemma_items_single(v);
        }
        let r = self.insert_many(tree, index, SetOrInsertPayload { start_op, actor, value: values });
        proof {
            if r is Ok {
                let objs = old(tree).objects@;
                let i = object_index(objs, self.object_id);
                let raw = choose|raw: Seq<Op>|
                    run_ops(raw, seq![v], objs[i].id, anchor_of(list_at(objs, i), index as int), start_op, actor)
                        && condensed(raw, r->Ok_0.new_ops@);
                assert(seq![v].take(0) =~= Seq::<Value>::empty());
                assert(items_op_count(Seq::<Value>::empty()) == 0);
                assert(op_is(raw[0], creation_action(v), objs[i].id, Key::Elem(anchor_of(list_at(objs, i), index as int)), true, Seq::empty()));
                if condensable(raw) {
                    crate::new_value::lemma_op_count_pos(v);
                    assert(prim_of(raw[0].action) is Some);
                    assert(v is Primitive);
                    assert(false);
                }
            }
        }
        r
    }
}

impl ResolvedTextMut {
    /// Inserts one grapheme at `index`.
    pub fn insert(&self, tree: &mut StateTree, index: u32, payload: SetOrInsertPayload<String>) -> (r: Result<
        LocalOperationResult,
        InvalidChangeRequest,
    >)
        requires
            old(tree).wf(),
            text_ok(old(tree).objects@, self.object_id),
            payload.start_op < u64::MAX,
            grapheme_count_of(payload.value@) == 1,
        ensures
            final(tree).wf(),
            ({
                let objs = old(tree).objects@;
                let i = object_index(objs, self.object_id);
                let s = text_at(objs, i);
                if index <= s.len() {
                    &&& r is Ok
                    &&& others_kept(objs, final(tree).objects@, i)
                    &&& final(tree).objects@[i].body is TextObject
                    &&& text_at(final(tree).objects@, i) == s.subrange(0, index as int) + text_run(
                        seq![payload.value],
                        payload.start_op,
                        payload.actor,
                    ) + s.subrange(index as int, s.len() as int)
                    &&& r->Ok_0.new_ops@.len() == 1
                    &&& op_is(
                        r->Ok_0.new_ops@[0],
                        OpType::SetScalar(ScalarValue::Str(payload.value)),
                        objs[i].id,
                        Key::Elem(anchor_of(s, index as int)),
                        true,
                        Seq::empty(),
                    )
                } else {
                    r == Err::<LocalOperationResult, InvalidChangeRequest>(
                        InvalidChangeRequest::MissingIndexError { index: index as u64 },
                    ) && final(tree).objects@ == objs
                }
            }),
    {
        let ghost g = payload.value;
        let SetOrInsertPayload { start_op, actor, value } = payload;
        let mut values: Vec<String> = Vec::new();
        values.push(value);
        assert(values@ =~= seq![g]);
        self.insert_many(tree, index, SetOrInsertPayload { start_op, actor, value: values })
    }
}

/// Setting element `index` of the list at position `i` to `value`, created
/// by op `start`: the element keeps its id and holds the new value alone;
/// the first op assigns it over every op id the element held.
pub open spec fn list_set_effect(
    old: Seq<StateObject>,
    new: Seq<StateObject>,
    i: int,
    index: int,
    value: Value,
    start: u64,
    actor: ActorId,
    ops: Seq<Op>,
) -> bool {
    let s = list_at(old, i);
    let o = local_opid(start, actor);
    &&& others_kept(old, new, i)
    &&& new[i].body is ListObject
    &&& list_at(new, i) == s.update(index, (s[index].0, ElementState::Original(seq![(o, created_entry(value, o))])))
    &&& ops.len() == value.op_count()
    &&& ops_width(ops) == value.op_count()
    &&& positive_widths(ops)
    &&& op_is(ops[0], creation_action(value), old[i].id, Key::Elem(ElementId::Id(s[index].0)), false, elem_pred(s[index].1))
    &&& crate::new_value::child_ops(ops, 0, value, local_opid(start, actor))
    &&& crate::new_value::added_in_range(new, old.len() as int, start as int, start + value.op_count(), actor)
    &&& value is Primitive ==> new.len() == old.len()
    &&& !(value is Primitive) ==> new.len() > old.len() && new.last().id == ObjectId::Id(local_opid(start, actor))
        && crate::new_value::created_body(new.last().body, value, start, actor)
}

/// Inserting `vals` at `index` of the list at position `i`, from op `start`
/// on: the run's elements stand between the two halves of the list, and the
/// ops are the run's chained inserts, condensed where they are plain scalars.
pub open spec fn list_insert_effect(
    old: Seq<StateObject>,
    new: Seq<StateObject>,
    i: int,
    index: int,
    vals: Seq<Value>,
    start: u64,
    actor: ActorId,
    ops: Seq<Op>,
) -> bool {
    let s = list_at(old, i);
    &&& others_kept(old, new, i)
    &&& new[i].body is ListObject
    &&& list_at(new, i) == s.subrange(0, index) + run_elements(vals, start, actor) + s.subrange(index, s.len() as int)
    &&& crate::new_value::added_in_range(new, old.len() as int, start as int, start + items_op_count(vals), actor)
    &&& (forall|j: int| 0 <= j < vals.len() ==> (#[trigger] vals[j]) is Primitive) ==> new.len() == old.len()
    &&& ops_width(ops) == items_op_count(vals)
    &&& positive_widths(ops)
    &&& exists|raw: Seq<Op>| run_ops(raw, vals, old[i].id, anchor_of(s, index), start, actor) && condensed(raw, ops)
}

/// Removing element `index` of the list at position `i`.
pub open spec fn list_remove_effect(old: Seq<StateObject>, new: Seq<StateObject>, i: int, index: int, ops: Seq<Op>) -> bool {
    let s = list_at(old, i);
    &&& others_kept(old, new, i)
    &&& new.len() == old.len()
    &&& new[i].body is ListObject
    &&& list_at(new, i) == s.remove(index)
    &&& removal_op(ops, old[i].id, s[index].0, elem_pred(s[index].1))
}

/// Inserting graphemes `gs` at `index` of the text at position `i`, from op
/// `start` on: one op, a `Set` for one grapheme and a `MultiSet` for more.
pub open spec fn text_insert_effect(
    old: Seq<StateObject>,
    new: Seq<StateObject>,
    i: int,
    index: int,
    gs: Seq<String>,
    start: u64,
    actor: ActorId,
    ops: Seq<Op>,
) -> bool {
    let s = text_at(old, i);
    let key = Key::Elem(anchor_of(s, index));
    &&& others_kept(old, new, i)
    &&& new.len() == old.len()
    &&& new[i].body is TextObject
    &&& text_at(new, i) == s.subrange(0, index) + text_run(gs, start, actor) + s.subrange(index, s.len() as int)
    &&& ops_width(ops) == gs.len()
    &&& positive_widths(ops)
    &&& gs.len() == 0 ==> ops.len() == 0
    &&& gs.len() == 1 ==> ops.len() == 1 && op_is(ops[0], OpType::SetScalar(ScalarValue::Str(gs[0])), old[i].id, key, true, Seq::empty())
    &&& gs.len() > 1 ==> ops.len() == 1 && ops[0].action is MultiSet && ops[0].action->MultiSet_0@ == str_scalars(gs)
        && ops[0].obj == old[i].id && ops[0].key == key && ops[0].insert && ops[0].pred@.len() == 0
}

/// Setting grapheme `index` of the text at position `i` to `g`, by op `start`.
pub open spec fn text_set_effect(
    old: Seq<StateObject>,
    new: Seq<StateObject>,
    i: int,
    index: int,
    g: String,
    start: u64,
    actor: ActorId,
    ops: Seq<Op>,
) -> bool {
    let s = text_at(old, i);
    let o = local_opid(start, actor);
    &&& others_kept(old, new, i)
    &&& new.len() == old.len()
    &&& new[i].body is TextObject
    &&& text_at(new, i) == s.update(index, (s[index].0, ElementState::Original(seq![(o, g)])))
    &&& ops.len() == 1
    &&& ops_width(ops) == 1
    &&& positive_widths(ops)
    &&& op_is(ops[0], OpType::SetScalar(ScalarValue::Str(g)), old[i].id, Key::Elem(ElementId::Id(s[index].0)), false, elem_pred(s[index].1))
}

/// Removing grapheme `index` of the text at position `i`.
pub open spec fn text_remove_effect(old: Seq<StateObject>, new: Seq<StateObject>, i: int, index: int, ops: Seq<Op>) -> bool {
    let s = text_at(old, i);
    &&& others_kept(old, new, i)
    &&& new.len() == old.len()
    &&& new[i].body is TextObject
    &&& text_at(new, i) == s.remove(index)
    &&& removal_op(ops, old[i].id, s[index].0, elem_pred(s[index].1))
}

/// Incrementing the counter at `slot` by `by`: the register's default moves
/// by `by`, nothing else in its container changes, and the op supersedes
/// every op id the register holds.
pub open spec fn counter_effect(old: Seq<StateObject>, new: Seq<StateObject>, slot: Slot, by: i64, ops: Seq<Op>) -> bool {
    let ci = object_index(old, slot.container);
    let reg = register_at(old, slot)->Some_0;
    &&& others_kept(old, new, ci)
    &&& new.len() == old.len()
    &&& register_at(new, slot) == Some(incremented(reg, by))
    &&& match (old[ci].body, slot.step) {
        (ObjectBody::MapObject(mt, props), PathElement::Key(k)) => new[ci].body is MapObject
            && new[ci].body->MapObject_0 == mt && forall|k2: Seq<char>|
            k2 != k@ ==> #[trigger] crate::state_tree::lookup_prop(new[ci].body->MapObject_1@, k2)
                == crate::state_tree::lookup_prop(props@, k2),
        (ObjectBody::ListObject(s), PathElement::Index(n)) => new[ci].body is ListObject && list_at(new, ci)
            == s@.update(n as int, (s@[n as int].0, ElementState::Original(incremented(reg, by)))),
        _ => true,
    }
    &&& ops.len() == 1
    &&& ops_width(ops) == 1
    &&& positive_widths(ops)
    &&& op_is(ops[0], OpType::Inc(by), slot.container, slot.key, false, opids_of(reg))
}

} // verus!
