//! The materialized state tree, path resolution, and map-entry updates.

use vstd::prelude::*;

use crate::diffable_sequence::DiffableSequence;
use crate::multivalue::{max_index, opids_of, MultiGrapheme, MultiValue, StateTreeValue};
use crate::protocol::{objid_eq, ElementId, Key, MapType, ObjType, ObjectId, OpId, ScalarValue, SeqType};
use crate::value::{Path, PathElement, Value, ValueModel};

verus! {

/// The contents of one object of the state tree.
pub enum ObjectBody {
    /// A map or a table: key to register.
    MapObject(MapType, Vec<(String, MultiValue)>),
    ListObject(DiffableSequence<MultiValue>),
    TextObject(DiffableSequence<MultiGrapheme>),
}

pub struct StateObject {
    pub id: ObjectId,
    pub body: ObjectBody,
}

/// The materialized document: every object, the root map among them. A
/// register that holds an object links to it by its id.
pub struct StateTree {
    pub objects: Vec<StateObject>,
}

/// The default value of a register.
pub open spec fn default_value_of(s: Seq<(crate::protocol::OpId, StateTreeValue)>) -> StateTreeValue {
    s[max_index(s)].1
}

/// The last position of the object with id `id`, or -1.
pub open spec fn object_index(objs: Seq<StateObject>, id: ObjectId) -> int
    decreases objs.len(),
{
    if objs.len() == 0 {
        -1
    } else if objid_eq(objs.last().id, id) {
        objs.len() - 1
    } else {
        object_index(objs.drop_last(), id)
    }
}

/// The last position of key `k` among a map's entries, or -1.
pub open spec fn prop_index<V>(props: Seq<(String, V)>, k: Seq<char>) -> int
    decreases props.len(),
{
    if props.len() == 0 {
        -1
    } else if props.last().0@ == k {
        props.len() - 1
    } else {
        prop_index(props.drop_last(), k)
    }
}

pub open spec fn body_wf(b: ObjectBody) -> bool {
    match b {
        ObjectBody::MapObject(_, props) => props_wf(props@),
        ObjectBody::ListObject(s) => s.wf(),
        ObjectBody::TextObject(s) => s.wf(),
    }
}

/// Where a register sits: its container, the key that ops on it carry, and
/// the path step that reaches it.
pub struct Slot {
    pub container: ObjectId,
    pub key: Key,
    pub step: PathElement,
}

/// Where a path leads.
pub enum Resolution {
    Root,
    /// A map, table, list or text object, held by the register at the slot.
    Composite(ObjType, ObjectId, Slot),
    /// A character of a text object.
    Character(Slot),
    /// A counter register.
    Counter(Slot),
    /// Any other scalar register.
    Primitive(Slot),
}

/// What a register's default value makes of the path that reaches it.
pub open spec fn classify(slot: Slot, v: StateTreeValue) -> Resolution {
    match v {
        StateTreeValue::Leaf(ScalarValue::Counter(_)) => Resolution::Counter(slot),
        StateTreeValue::Leaf(_) => Resolution::Primitive(slot),
        StateTreeValue::Composite(t, o) => Resolution::Composite(t, o, slot),
    }
}

/// The body of an object fits the kind a link gives it.
pub open spec fn kind_matches(b: ObjectBody, t: ObjType) -> bool {
    match (b, t) {
        (ObjectBody::MapObject(mt, _), ObjType::MapLike(mt2)) => mt == mt2,
        (ObjectBody::ListObject(_), ObjType::Sequence(SeqType::List)) => true,
        (ObjectBody::TextObject(_), ObjType::Sequence(SeqType::Text)) => true,
        _ => false,
    }
}

/// A resolution that names an object names one that is in the tree with a
/// body of its kind.
pub open spec fn linked(objs: Seq<StateObject>, r: Resolution) -> bool {
    match r {
        Resolution::Composite(t, o, _) => {
            let i = object_index(objs, o);
            i >= 0 && kind_matches(objs[i].body, t)
        },
        _ => true,
    }
}

/// A resolution that links to a missing object leads nowhere.
pub open spec fn checked(objs: Seq<StateObject>, r: Resolution) -> Option<Resolution> {
    if linked(objs, r) {
        Some(r)
    } else {
        None
    }
}

/// The object a resolution names as a container, if it is one.
pub open spec fn container_of(r: Resolution) -> Option<ObjectId> {
    match r {
        Resolution::Root => Some(ObjectId::Root),
        Resolution::Composite(_, o, _) => Some(o),
        _ => None,
    }
}

/// One more step of a path from `parent`.
pub open spec fn child_resolution(objs: Seq<StateObject>, parent: Resolution, el: PathElement) -> Option<Resolution> {
    match container_of(parent) {
        None => None,
        Some(cid) => {
            let i = object_index(objs, cid);
            if i < 0 {
                None
            } else {
                match (objs[i].body, el) {
                    (ObjectBody::MapObject(_, props), PathElement::Key(k)) => {
                        let j = prop_index(props@, k@);
                        if j < 0 {
                            None
                        } else {
                            checked(
                                objs,
                                classify(
                                    Slot { container: cid, key: Key::Prop(k), step: el },
                                    default_value_of(props@[j].1@),
                                ),
                            )
                        }
                    },
                    (ObjectBody::ListObject(s), PathElement::Index(n)) => {
                        if n < s@.len() {
                            checked(
                                objs,
                                classify(
                                    Slot {
                                        container: cid,
                                        key: Key::Elem(ElementId::Id(s@[n as int].0)),
                                        step: el,
                                    },
                                    default_value_of(s.values()[n as int].1),
                                ),
                            )
                        } else {
                            None
                        }
                    },
                    (ObjectBody::TextObject(s), PathElement::Index(n)) => {
                        if n < s@.len() {
                            Some(
                                Resolution::Character(
                                    Slot {
                                        container: cid,
                                        key: Key::Elem(ElementId::Id(s@[n as int].0)),
                                        step: el,
                                    },
                                ),
                            )
                        } else {
                            None
                        }
                    },
                    _ => None,
                }
            }
        },
    }
}

/// Where a path leads in the tree, if anywhere.
pub open spec fn resolve(objs: Seq<StateObject>, p: Seq<PathElement>) -> Option<Resolution>
    decreases p.len(),
{
    if p.len() == 0 {
        Some(Resolution::Root)
    } else {
        match resolve(objs, p.drop_last()) {
            None => None,
            Some(parent) => child_resolution(objs, parent, p.last()),
        }
    }
}

/// The model of the value of object `id`, following links at most `fuel`
/// levels deep.
pub open spec fn materialized(objs: Seq<StateObject>, id: ObjectId, fuel: nat) -> ValueModel
    decreases fuel,
{
    let i = object_index(objs, id);
    if fuel == 0 || i < 0 {
        ValueModel::Primitive(ScalarValue::Null)
    } else {
        match objs[i].body {
            ObjectBody::MapObject(mt, props) => ValueModel::Object(
                Seq::new(
                    props@.len(),
                    |j: int|
                        (
                            props@[j].0@,
                            match default_value_of(props@[j].1@) {
                                StateTreeValue::Leaf(v) => ValueModel::Primitive(v),
                                StateTreeValue::Composite(_, o) => materialized(
                                    objs,
                                    o,
                                    (fuel - 1) as nat,
                                ),
                            },
                        ),
                ),
                mt,
            ),
            ObjectBody::ListObject(s) => ValueModel::Sequence(
                Seq::new(
                    s@.len(),
                    |j: int|
                        match default_value_of(s.values()[j].1) {
                            StateTreeValue::Leaf(v) => ValueModel::Primitive(v),
                            StateTreeValue::Composite(_, o) => materialized(
                                objs,
                                o,
                                (fuel - 1) as nat,
                            ),
                        },
                ),
                SeqType::List,
            ),
            ObjectBody::TextObject(s) => ValueModel::Sequence(
                Seq::new(
                    s@.len(),
                    |j: int|
                        ValueModel::Primitive(
                            ScalarValue::Str(s.values()[j].1[max_index(s.values()[j].1)].1),
                        ),
                ),
                SeqType::Text,
            ),
        }
    }
}

/// The model of the value a register entry holds.
pub open spec fn entry_model(objs: Seq<StateObject>, v: StateTreeValue, fuel: nat) -> ValueModel {
    match v {
        StateTreeValue::Leaf(s) => ValueModel::Primitive(s),
        StateTreeValue::Composite(_, o) => materialized(objs, o, fuel),
    }
}

impl StateTree {
    pub open spec fn wf(&self) -> bool {
        &&& object_index(self.objects@, ObjectId::Root) >= 0
        &&& self.objects@[object_index(self.objects@, ObjectId::Root)].body is MapObject
        &&& forall|i: int| 0 <= i < self.objects@.len() ==> body_wf(#[trigger] self.objects@[i].body)
    }

    /// The view of the whole document.
    pub open spec fn view_model(&self) -> ValueModel {
        materialized(self.objects@, ObjectId::Root, self.objects@.len())
    }

    /// An empty document: a root map with no keys.
    pub fn new() -> (r: StateTree)
        ensures
            r.wf(),
            r.objects@.len() == 1,
            r.objects@[0].id == ObjectId::Root,
            r.objects@[0].body is MapObject,
            r.objects@[0].body->MapObject_0 == MapType::Plain,
            r.objects@[0].body->MapObject_1@.len() == 0,
    {
        let mut objects: Vec<StateObject> = Vec::new();
        let props: Vec<(String, MultiValue)> = Vec::new();
        objects.push(StateObject { id: ObjectId::Root, body: ObjectBody::MapObject(MapType::Plain, props) });
        let r = StateTree { objects };
        assert(object_index(r.objects@, ObjectId::Root) == 0);
        r
    }

    /// The position of object `id`.
    pub fn find_object(&self, id: &ObjectId) -> (r: Option<usize>)
        ensures
            match r {
                Some(i) => i as int == object_index(self.objects@, *id) && i < self.objects@.len(),
                None => object_index(self.objects@, *id) == -1,
            },
    {
        proof {
            lemma_object_index(self.objects@, *id);
        }
        let mut i: usize = self.objects.len();
        assert(self.objects@.take(i as int) =~= self.objects@);
        while i > 0
            invariant
                i <= self.objects@.len(),
                object_index(self.objects@, *id) == object_index(self.objects@.take(i as int), *id),
            decreases i,
        {
            assert(self.objects@.take(i as int).drop_last() =~= self.objects@.take(i - 1));
            if self.objects[i - 1].id.same(id) {
                return Some(i - 1);
            }
            i = i - 1;
        }
        None
    }

    /// The value of object `id`, following links at most `fuel` levels deep.
    pub fn value_of(&self, id: &ObjectId, fuel: usize) -> (r: Value)
        requires
            self.wf(),
        ensures
            r.model() == materialized(self.objects@, *id, fuel as nat),
        decreases fuel, 0nat,
    {
        let i = match self.find_object(id) {
            Some(i) => i,
            None => {
                return Value::Primitive(ScalarValue::Null);
            },
        };
        if fuel == 0 {
            return Value::Primitive(ScalarValue::Null);
        }
        let ghost objs = self.objects@;
        assert(body_wf(objs[i as int].body));
        match &self.objects[i].body {
            ObjectBody::MapObject(mt, props) => {
                let mut entries: Vec<(String, Value)> = Vec::new();
                let mut j: usize = 0;
                while j < props.len()
                    invariant
                        self.wf(),
                        objs == self.objects@,
                        0 < fuel,
                        i < objs.len(),
                        objs[i as int].body == ObjectBody::MapObject(*mt, *props),
                        forall|t: int| 0 <= t < props@.len() ==> (#[trigger] props@[t]).1.wf(),
                        j <= props@.len(),
                        entries@.len() == j,
                        forall|t: int|
                            0 <= t < j ==> (#[trigger] entries@[t]).0@ == props@[t].0@
                                && entries@[t].1.model() == entry_model(
                                objs,
                                default_value_of(props@[t].1@),
                                (fuel - 1) as nat,
                            ),
                    decreases props@.len() - j,
                {
                    let v = props[j].1.default_statetree_value();
                    let item = self.entry_value(v, fuel - 1);
                    entries.push((props[j].0.clone(), item));
                    j = j + 1;
                }
                let r = Value::Object(entries, *mt);
                assert(r.model()->Object_0 =~= materialized(objs, *id, fuel as nat)->Object_0);
                r
            },
            ObjectBody::ListObject(s) => {
                let mut items: Vec<Value> = Vec::new();
                let mut j: usize = 0;
                while j < s.len()
                    invariant
                        self.wf(),
                        objs == self.objects@,
                        0 < fuel,
                        i < objs.len(),
                        objs[i as int].body == ObjectBody::ListObject(*s),
                        s.wf(),
                        j <= s@.len(),
                        items@.len() == j,
                        forall|t: int|
                            0 <= t < j ==> (#[trigger] items@[t]).model() == entry_model(
                                objs,
                                default_value_of(s.values()[t].1),
                                (fuel - 1) as nat,
                            ),
                    decreases s@.len() - j,
                {
                    let (_id, mv) = s.get(j);
                    let v = mv.default_statetree_value();
                    let item = self.entry_value(v, fuel - 1);
                    items.push(item);
                    j = j + 1;
                }
                let r = Value::Sequence(items, SeqType::List);
                assert(r.model()->Sequence_0 =~= materialized(objs, *id, fuel as nat)->Sequence_0);
                r
            },
            ObjectBody::TextObject(s) => {
                let mut items: Vec<Value> = Vec::new();
                let mut j: usize = 0;
                while j < s.len()
                    invariant
                        i < objs.len(),
                        objs[i as int].body == ObjectBody::TextObject(*s),
                        s.wf(),
                        j <= s@.len(),
                        items@.len() == j,
                        forall|t: int|
                            0 <= t < j ==> (#[trigger] items@[t]).model() == ValueModel::Primitive(
                                ScalarValue::Str(s.values()[t].1[max_index(s.values()[t].1)].1),
                            ),
                    decreases s@.len() - j,
                {
                    let (_id, g) = s.get(j);
                    let text = g.default_grapheme();
                    items.push(Value::Primitive(ScalarValue::Str(text)));
                    j = j + 1;
                }
                let r = Value::Sequence(items, SeqType::Text);
                assert(r.model()->Sequence_0 =~= materialized(objs, *id, fuel as nat)->Sequence_0);
                r
            },
        }
    }

    /// The value a register entry holds.
    pub fn entry_value(&self, v: &StateTreeValue, fuel: usize) -> (r: Value)
        requires
            self.wf(),
        ensures
            r.model() == entry_model(self.objects@, *v, fuel as nat),
        decreases fuel, 1nat,
    {
        match v {
            StateTreeValue::Leaf(s) => Value::Primitive(s.copy()),
            StateTreeValue::Composite(_, o) => self.value_of(o, fuel),
        }
    }

    /// The view of the whole document.
    pub fn value(&self) -> (r: Value)
        requires
            self.wf(),
        ensures
            r.model() == self.view_model(),
    {
        self.value_of(&ObjectId::Root, self.objects.len())
    }

    /// Where `path` leads, if anywhere.
    pub fn locate(&self, path: &Path) -> (r: Option<Resolution>)
        requires
            self.wf(),
        ensures
            r == resolve(self.objects@, path@),
    {
        let mut cur = Resolution::Root;
        let mut i: usize = 0;
        assert(path@.take(0) =~= Seq::<PathElement>::empty());
        while i < path.elements.len()
            invariant
                i <= path@.len(),
                self.wf(),
                resolve(self.objects@, path@.take(i as int)) == Some(cur),
            decreases path@.len() - i,
        {
            proof {
                assert(path@.take(i + 1).drop_last() =~= path@.take(i as int));
                lemma_resolve_stops(self.objects@, path@, i as int + 1);
            }
            match self.child(&cur, &path.elements[i]) {
                Some(next) => {
                    cur = next;
                },
                None => {
                    return None;
                },
            }
            i = i + 1;
        }
        assert(path@.take(i as int) =~= path@);
        Some(cur)
    }

    /// `r`, unless it links to a missing object.
    pub fn checked_exec(&self, r: Resolution) -> (out: Option<Resolution>)
        ensures
            out == checked(self.objects@, r),
    {
        let ok = match &r {
            Resolution::Composite(t, o, _) => match self.find_object(o) {
                None => false,
                Some(i) => match (&self.objects[i].body, t) {
                    (ObjectBody::MapObject(mt, _), ObjType::MapLike(mt2)) => *mt == *mt2,
                    (ObjectBody::ListObject(_), ObjType::Sequence(SeqType::List)) => true,
                    (ObjectBody::TextObject(_), ObjType::Sequence(SeqType::Text)) => true,
                    _ => false,
                },
            },
            _ => true,
        };
        if ok {
            Some(r)
        } else {
            None
        }
    }

    /// One step from `parent`.
    fn child(&self, parent: &Resolution, el: &PathElement) -> (r: Option<Resolution>)
        requires
            self.wf(),
        ensures
            r == child_resolution(self.objects@, *parent, *el),
    {
        let cid = match parent {
            Resolution::Root => ObjectId::Root,
            Resolution::Composite(_, o, _) => o.copy(),
            _ => {
                return None;
            },
        };
        let i = match self.find_object(&cid) {
            Some(i) => i,
            None => {
                return None;
            },
        };
        assert(body_wf(self.objects@[i as int].body));
        match (&self.objects[i].body, el) {
            (ObjectBody::MapObject(_, props), PathElement::Key(k)) => {
                match find_prop(props, k) {
                    None => None,
                    Some(j) => {
                        assert(props@[j as int].1.wf());
                        let v = props[j].1.default_statetree_value();
                        self.checked_exec(
                            classify_exec(Slot { container: cid, key: Key::Prop(k.clone()), step: el.copy() }, v),
                        )
                    },
                }
            },
            (ObjectBody::ListObject(s), PathElement::Index(n)) => {
                if (*n as usize) < s.len() {
                    let (id, mv) = s.get(*n as usize);
                    let v = mv.default_statetree_value();
                    self.checked_exec(
                        classify_exec(
                            Slot { container: cid, key: Key::Elem(ElementId::Id(id.copy())), step: el.copy() },
                            v,
                        ),
                    )
                } else {
                    None
                }
            },
            (ObjectBody::TextObject(s), PathElement::Index(n)) => {
                if (*n as usize) < s.len() {
                    let (id, _g) = s.get(*n as usize);
                    Some(
                        Resolution::Character(
                            Slot { container: cid, key: Key::Elem(ElementId::Id(id.copy())), step: el.copy() },
                        ),
                    )
                } else {
                    None
                }
            },
            _ => None,
        }
    }
}

/// What a register's default value makes of the path that reaches it.
pub fn classify_exec(slot: Slot, v: &StateTreeValue) -> (r: Resolution)
    ensures
        r == classify(slot, *v),
{
    match v {
        StateTreeValue::Leaf(ScalarValue::Counter(_)) => Resolution::Counter(slot),
        StateTreeValue::Leaf(_) => Resolution::Primitive(slot),
        StateTreeValue::Composite(t, o) => Resolution::Composite(*t, o.copy(), slot),
    }
}

/// The last position of key `k` among a map's entries.
pub fn find_prop<V>(props: &Vec<(String, V)>, k: &String) -> (r: Option<usize>)
    ensures
        match r {
            Some(j) => j as int == prop_index(props@, k@) && j < props@.len(),
            None => prop_index(props@, k@) == -1,
        },
{
    proof {
        lemma_prop_index(props@, k@);
    }
    let mut i: usize = props.len();
    assert(props@.take(i as int) =~= props@);
    while i > 0
        invariant
            i <= props@.len(),
            prop_index(props@, k@) == prop_index(props@.take(i as int), k@),
        decreases i,
    {
        assert(props@.take(i as int).drop_last() =~= props@.take(i - 1));
        if props[i - 1].0 == *k {
            return Some(i - 1);
        }
        i = i - 1;
    }
    None
}

pub proof fn lemma_object_index(objs: Seq<StateObject>, id: ObjectId)
    ensures
        -1 <= object_index(objs, id) < objs.len(),
        object_index(objs, id) >= 0 ==> objid_eq(objs[object_index(objs, id)].id, id),
    decreases objs.len(),
{
    if objs.len() > 0 {
        lemma_object_index(objs.drop_last(), id);
    }
}

pub proof fn lemma_prop_index<V>(props: Seq<(String, V)>, k: Seq<char>)
    ensures
        -1 <= prop_index(props, k) < props.len(),
        prop_index(props, k) >= 0 ==> props[prop_index(props, k)].0@ == k,
        prop_index(props, k) == -1 ==> forall|j: int| 0 <= j < props.len() ==> (#[trigger] props[j]).0@ != k,
    decreases props.len(),
{
    if props.len() > 0 {
        lemma_prop_index(props.drop_last(), k);
        if prop_index(props, k) == -1 {
            assert forall|j: int| 0 <= j < props.len() implies (#[trigger] props[j]).0@ != k by {
                if j < props.len() - 1 {
                    assert(props[j] == props.drop_last()[j]);
                }
            }
        }
    }
}

/// Once a prefix of a path leads nowhere, so does the whole path.
pub proof fn lemma_resolve_stops(objs: Seq<StateObject>, p: Seq<PathElement>, k: int)
    requires
        0 < k <= p.len(),
    ensures
        resolve(objs, p.take(k)) is None ==> resolve(objs, p) is None,
    decreases p.len() - k,
{
    if k < p.len() {
        assert(p.take(k + 1).drop_last() =~= p.take(k));
        lemma_resolve_stops(objs, p, k + 1);
    } else {
        assert(p.take(k) =~= p);
    }
}

/// The register under key `k` of a map's entries, if any.
pub open spec fn lookup_prop(props: Seq<(String, MultiValue)>, k: Seq<char>) -> Option<MultiValue> {
    let j = prop_index(props, k);
    if j >= 0 {
        Some(props[j].1)
    } else {
        None
    }
}

/// `new` holds `reg` under `k` and agrees with `old` on every other key.
pub open spec fn prop_set(
    old: Seq<(String, MultiValue)>,
    new: Seq<(String, MultiValue)>,
    k: Seq<char>,
    reg: Seq<(OpId, StateTreeValue)>,
) -> bool {
    &&& lookup_prop(new, k) is Some
    &&& lookup_prop(new, k)->Some_0@ == reg
    &&& forall|k2: Seq<char>| k2 != k ==> #[trigger] lookup_prop(new, k2) == lookup_prop(old, k2)
}

/// `new` holds nothing under `k` and agrees with `old` on every other key.
pub open spec fn prop_removed(old: Seq<(String, MultiValue)>, new: Seq<(String, MultiValue)>, k: Seq<char>) -> bool {
    &&& lookup_prop(new, k) is None
    &&& forall|k2: Seq<char>| k2 != k ==> #[trigger] lookup_prop(new, k2) == lookup_prop(old, k2)
}

/// The register at a slot of a map or list, if any.
pub open spec fn register_at(objs: Seq<StateObject>, slot: Slot) -> Option<Seq<(OpId, StateTreeValue)>> {
    let i = object_index(objs, slot.container);
    if i < 0 {
        None
    } else {
        match (objs[i].body, slot.step) {
            (ObjectBody::MapObject(_, props), PathElement::Key(k)) => match lookup_prop(props@, k@) {
                Some(mv) => Some(mv@),
                None => None,
            },
            (ObjectBody::ListObject(s), PathElement::Index(n)) => if n < s@.len() {
                Some(s.values()[n as int].1)
            } else {
                None
            },
            _ => None,
        }
    }
}

/// The op ids of the register under key `k` of a map, or none.
pub open spec fn pred_for_key(props: Seq<(String, MultiValue)>, k: Seq<char>) -> Seq<OpId> {
    match lookup_prop(props, k) {
        Some(mv) => opids_of(mv@),
        None => Seq::empty(),
    }
}

/// Every object but the one at `i` is kept, and that one keeps its id;
/// objects may be added after them.
pub open spec fn others_kept(old: Seq<StateObject>, new: Seq<StateObject>, i: int) -> bool {
    &&& new.len() >= old.len()
    &&& new[i].id == old[i].id
    &&& forall|j: int| 0 <= j < old.len() && j != i ==> #[trigger] new[j] == old[j]
}

pub proof fn lemma_object_index_update(objs: Seq<StateObject>, i: int, o: StateObject, id: ObjectId)
    requires
        0 <= i < objs.len(),
        o.id == objs[i].id,
    ensures
        object_index(objs.update(i, o), id) == object_index(objs, id),
    decreases objs.len(),
{
    let u = objs.update(i, o);
    if i < objs.len() - 1 {
        assert(u.drop_last() =~= objs.drop_last().update(i, o));
        lemma_object_index_update(objs.drop_last(), i, o, id);
    } else {
        assert(u.drop_last() =~= objs.drop_last());
    }
}

pub proof fn lemma_prop_index_update(props: Seq<(String, MultiValue)>, j: int, e: (String, MultiValue), k: Seq<char>)
    requires
        0 <= j < props.len(),
        e.0@ == props[j].0@,
    ensures
        prop_index(props.update(j, e), k) == prop_index(props, k),
    decreases props.len(),
{
    let u = props.update(j, e);
    if j < props.len() - 1 {
        assert(u.drop_last() =~= props.drop_last().update(j, e));
        lemma_prop_index_update(props.drop_last(), j, e, k);
    } else {
        assert(u.drop_last() =~= props.drop_last());
    }
}

pub proof fn lemma_prop_index_remove(props: Seq<(String, MultiValue)>, k: Seq<char>, k2: Seq<char>)
    requires
        prop_index(props, k) >= 0,
        k2 != k,
    ensures
        lookup_prop(props.remove(prop_index(props, k)), k2) == lookup_prop(props, k2),
    decreases props.len(),
{
    lemma_prop_index(props, k);
    let j = prop_index(props, k);
    let r = props.remove(j);
    if j == props.len() - 1 {
        assert(r =~= props.drop_last());
        lemma_prop_index(props.drop_last(), k2);
    } else {
        assert(r.drop_last() =~= props.drop_last().remove(j));
        assert(r.last() == props.last());
        lemma_prop_index_remove(props.drop_last(), k, k2);
        lemma_prop_index(props.drop_last(), k2);
        lemma_prop_index(r.drop_last(), k2);
    }
}

/// Every register of a map's entries is well formed.
pub open spec fn props_wf(props: Seq<(String, MultiValue)>) -> bool {
    forall|j: int| 0 <= j < props.len() ==> (#[trigger] props[j]).1.wf()
}

/// Sets the register under `k`, replacing an existing one.
pub fn put_prop(props: &mut Vec<(String, MultiValue)>, k: String, mv: MultiValue)
    requires
        props_wf(old(props)@),
        mv.wf(),
    ensures
        prop_set(old(props)@, final(props)@, k@, mv@),
        props_wf(final(props)@),
{
    let ghost before = props@;
    match find_prop(props, &k) {
        Some(j) => {
            proof {
                lemma_prop_index(before, k@);
            }
            props.set(j, (k, mv));
            proof {
                assert forall|k2: Seq<char>| true implies #[trigger] prop_index(props@, k2) == prop_index(before, k2) by {
                    lemma_prop_index_update(before, j as int, props@[j as int], k2);
                }
                assert(prop_index(props@, k@) == j);
                assert forall|k2: Seq<char>| k2 != k@ implies #[trigger] lookup_prop(props@, k2) == lookup_prop(before, k2) by {
                    lemma_prop_index(before, k2);
                    if prop_index(before, k2) >= 0 {
                        assert(prop_index(before, k2) != j);
                    }
                }
                assert forall|j2: int| 0 <= j2 < props@.len() implies (#[trigger] props@[j2]).1.wf() by {
                    if j2 != j {
                        assert(before[j2] == props@[j2]);
                    }
                }
            }
        },
        None => {
            props.push((k, mv));
            proof {
                assert(props@.drop_last() =~= before);
                assert(prop_index(props@, k@) == before.len());
                assert forall|k2: Seq<char>| k2 != k@ implies #[trigger] lookup_prop(props@, k2) == lookup_prop(before, k2) by {
                    lemma_prop_index(before, k2);
                    assert(prop_index(props@, k2) == prop_index(before, k2));
                    if prop_index(before, k2) >= 0 {
                        assert(props@[prop_index(before, k2)] == before[prop_index(before, k2)]);
                    }
                }
                assert forall|j2: int| 0 <= j2 < props@.len() implies (#[trigger] props@[j2]).1.wf() by {
                    if j2 < before.len() {
                        assert(before[j2] == props@[j2]);
                    }
                }
            }
        },
    }
}

/// Removes every register under `k`.
pub fn remove_prop(props: &mut Vec<(String, MultiValue)>, k: &String)
    requires
        props_wf(old(props)@),
    ensures
        prop_removed(old(props)@, final(props)@, k@),
        props_wf(final(props)@),
{
    let ghost before = props@;
    loop
        invariant
            before == old(props)@,
            props_wf(props@),
            forall|k2: Seq<char>| k2 != k@ ==> #[trigger] lookup_prop(props@, k2) == lookup_prop(before, k2),
        decreases props@.len(),
    {
        match find_prop(props, k) {
            Some(j) => {
                let ghost cur = props@;
                proof {
                    lemma_prop_index(cur, k@);
                }
                props.remove(j);
                proof {
                    assert forall|k2: Seq<char>| k2 != k@ implies #[trigger] lookup_prop(props@, k2) == lookup_prop(before, k2) by {
                        lemma_prop_index_remove(cur, k@, k2);
                    }
                    assert forall|j2: int| 0 <= j2 < props@.len() implies (#[trigger] props@[j2]).1.wf() by {
                        if j2 < j {
                            assert(cur[j2] == props@[j2]);
                        } else {
                            assert(cur[j2 + 1] == props@[j2]);
                        }
                    }
                }
            },
            None => {
                return;
            },
        }
    }
}

impl StateTree {
    /// Puts `body` in place of the body of the object at `i`; returns the old
    /// body.
    pub fn swap_body(&mut self, i: usize, body: ObjectBody) -> (r: ObjectBody)
        requires
            old(self).wf(),
            i < old(self).objects@.len(),
            body_wf(body),
            i == object_index(old(self).objects@, ObjectId::Root) ==> body is MapObject,
        ensures
            final(self).objects@ == old(self).objects@.update(
                i as int,
                StateObject { id: old(self).objects@[i as int].id, body },
            ),
            r == old(self).objects@[i as int].body,
            final(self).wf(),
            forall|id: ObjectId| #[trigger] object_index(final(self).objects@, id) == object_index(old(self).objects@, id),
    {
        let ghost before = self.objects@;
        let StateObject { id, body: old_body } = self.objects.remove(i);
        let o = StateObject { id, body };
        self.objects.insert(i, o);
        proof {
            assert(self.objects@ =~= before.update(i as int, o));
            lemma_object_index_update(before, i as int, o, ObjectId::Root);
            lemma_object_index(before, ObjectId::Root);
            assert forall|id: ObjectId| #[trigger] object_index(self.objects@, id) == object_index(before, id) by {
                lemma_object_index_update(before, i as int, o, id);
            }
            assert forall|j: int| 0 <= j < self.objects@.len() implies body_wf(#[trigger] self.objects@[j].body) by {
                if j != i {
                    assert(self.objects@[j] == before[j]);
                }
            }
        }
        old_body
    }
}

/// Whatever a path resolves to links to an object of the tree.
pub proof fn lemma_resolve_linked(objs: Seq<StateObject>, p: Seq<PathElement>)
    requires
        resolve(objs, p) is Some,
    ensures
        linked(objs, resolve(objs, p)->Some_0),
{
}

} // verus!
