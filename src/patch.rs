//! Applying a backend patch to the state tree.

use vstd::prelude::*;

use crate::diffable_sequence::{apply_edit, apply_edits, finish_all, insert_run, steady, DiffableSequence, ElementState};
use crate::multivalue::{put, put_entry, valid_entries, MultiGrapheme, MultiValue, StateTreeValue};
use crate::protocol::{Diff, DiffEdit, InvalidPatch, MapType, ObjType, ObjectId, OpId, SeqType};
use crate::state_tree::{
    body_wf, lemma_object_index, lookup_prop, object_index, put_prop, remove_prop, ObjectBody, StateObject,
    StateTree,
};

verus! {

/// What a patch says of one object.
pub enum ObjectDiff {
    /// For some keys of a map or table, every assignment that survives; a key
    /// with none left is deleted.
    Props(MapType, Vec<(String, Vec<(OpId, Diff)>)>),
    /// The edits of a list or text.
    Edits(SeqType, Vec<DiffEdit>),
}

/// What a register entry built from a diff holds.
pub open spec fn entry_of(d: Diff) -> StateTreeValue {
    match d {
        Diff::Value(v) => StateTreeValue::Leaf(v),
        Diff::Object(t, o) => StateTreeValue::Composite(t, o),
    }
}

/// The register a list of surviving assignments makes.
pub open spec fn register_from(a: Seq<(OpId, Diff)>) -> Seq<(OpId, StateTreeValue)>
    decreases a.len(),
{
    if a.len() == 0 {
        Seq::empty()
    } else {
        put_entry(register_from(a.drop_last()), a.last().0, entry_of(a.last().1))
    }
}

/// The assignments a props diff gives for key `k`: those of its last entry
/// for `k`, if any.
pub open spec fn props_diff_for(d: Seq<(String, Vec<(OpId, Diff)>)>, k: Seq<char>) -> Option<Seq<(OpId, Diff)>>
    decreases d.len(),
{
    if d.len() == 0 {
        None
    } else if d.last().0@ == k {
        Some(d.last().1@)
    } else {
        props_diff_for(d.drop_last(), k)
    }
}

/// The entries `new` of a map after a props diff `d` on `old`.
pub open spec fn props_applied(
    old: Seq<(String, MultiValue)>,
    new: Seq<(String, MultiValue)>,
    d: Seq<(String, Vec<(OpId, Diff)>)>,
) -> bool {
    forall|k: Seq<char>|
        match #[trigger] props_diff_for(d, k) {
            None => lookup_prop(new, k) == lookup_prop(old, k),
            Some(a) => if a.len() == 0 {
                lookup_prop(new, k) is None
            } else {
                lookup_prop(new, k) is Some && lookup_prop(new, k)->Some_0@ == register_from(a)
            },
        }
}

pub proof fn lemma_register_valid(a: Seq<(OpId, Diff)>)
    ensures
        a.len() > 0 ==> valid_entries(register_from(a)),
        a.len() == 0 ==> register_from(a).len() == 0,
    decreases a.len(),
{
    if a.len() > 0 {
        lemma_register_valid(a.drop_last());
        if a.len() == 1 {
            assert(register_from(a.drop_last()).len() == 0);
            assert(crate::multivalue::find_opid(register_from(a.drop_last()), a.last().0) == -1);
        } else {
            crate::multivalue::lemma_put_entry_valid(register_from(a.drop_last()), a.last().0, entry_of(a.last().1));
        }
    }
}

/// The register a list of surviving assignments makes.
pub fn register_of(a: &Vec<(OpId, Diff)>) -> (r: MultiValue)
    ensures
        r@ == register_from(a@),
{
    let mut entries: Vec<(OpId, StateTreeValue)> = Vec::new();
    let mut i: usize = 0;
    assert(a@.take(0) =~= Seq::<(OpId, Diff)>::empty());
    while i < a.len()
        invariant
            i <= a@.len(),
            entries@ == register_from(a@.take(i as int)),
        decreases a@.len() - i,
    {
        proof {
            assert(a@.take(i + 1).drop_last() =~= a@.take(i as int));
        }
        let e = &a[i];
        let v = match &e.1 {
            Diff::Value(s) => StateTreeValue::Leaf(s.copy()),
            Diff::Object(t, o) => StateTreeValue::Composite(*t, o.copy()),
        };
        put(&mut entries, e.0.copy(), v);
        i = i + 1;
    }
    assert(a@.take(i as int) =~= a@);
    MultiValue { entries }
}

impl StateTree {
    /// Adds an empty object `id` of kind `t`, unless the tree has an object
    /// with that id.
    pub fn ensure_object(&mut self, id: &ObjectId, t: ObjType)
        requires
            old(self).wf(),
        ensures
            final(self).wf(),
            object_index(final(self).objects@, *id) >= 0,
            final(self).objects@.len() >= old(self).objects@.len(),
            final(self).objects@.subrange(0, old(self).objects@.len() as int) == old(self).objects@,
            fresh_extends(old(self).objects@, final(self).objects@),
    {
        proof {
            lemma_object_index(self.objects@, *id);
        }
        if self.find_object(id).is_some() {
            assert(self.objects@.subrange(0, self.objects@.len() as int) =~= self.objects@);
            return;
        }
        assert(id is Id);
        let body = match t {
            ObjType::MapLike(mt) => ObjectBody::MapObject(mt, Vec::new()),
            ObjType::Sequence(SeqType::List) => ObjectBody::ListObject(DiffableSequence::new()),
            ObjType::Sequence(SeqType::Text) => ObjectBody::TextObject(DiffableSequence::new()),
        };
        let ghost before = self.objects@;
        let o = StateObject { id: id.copy(), body };
        self.push_object(o);
        proof {
            assert(self.objects@.drop_last() =~= before);
            assert(self.objects@.subrange(0, before.len() as int) =~= before);
            assert(object_index(before, *id) == -1);
        }
    }

    /// Applies a props diff to the map at position `i`.
    pub fn apply_props(&mut self, i: usize, d: &Vec<(String, Vec<(OpId, Diff)>)>)
        requires
            old(self).wf(),
            i < old(self).objects@.len(),
            old(self).objects@[i as int].body is MapObject,
        ensures
            final(self).wf(),
            final(self).objects@.len() == old(self).objects@.len(),
            final(self).objects@[i as int].id == old(self).objects@[i as int].id,
            final(self).objects@[i as int].body is MapObject,
            final(self).objects@[i as int].body->MapObject_0 == old(self).objects@[i as int].body->MapObject_0,
            props_applied(
                old(self).objects@[i as int].body->MapObject_1@,
                final(self).objects@[i as int].body->MapObject_1@,
                d@,
            ),
            forall|j: int| 0 <= j < old(self).objects@.len() && j != i ==> #[trigger] final(self).objects@[j]
                == old(self).objects@[j],
    {
        let ghost objs0 = self.objects@;
        proof {
            lemma_object_index(objs0, ObjectId::Root);
        }
        let body = self.swap_body(i, ObjectBody::MapObject(MapType::Plain, Vec::new()));
        match body {
            ObjectBody::MapObject(mt, props) => {
                let mut props = props;
                let ghost p0 = props@;
                let mut j: usize = 0;
                assert(d@.take(0) =~= Seq::<(String, Vec<(OpId, Diff)>)>::empty());
                while j < d.len()
                    invariant
                        j <= d@.len(),
                        crate::state_tree::props_wf(props@),
                        props_applied(p0, props@, d@.take(j as int)),
                    decreases d@.len() - j,
                {
                    proof {
                        assert(d@.take(j + 1).drop_last() =~= d@.take(j as int));
                        lemma_register_valid(d@[j as int].1@);
                    }
                    let ghost before = props@;
                    let (k, a) = (&d[j].0, &d[j].1);
                    if a.len() == 0 {
                        remove_prop(&mut props, k);
                    } else {
                        put_prop(&mut props, k.clone(), register_of(a));
                    }
                    j = j + 1;
                    proof {
                        assert forall|k2: Seq<char>| true implies match #[trigger] props_diff_for(d@.take(j as int), k2) {
                            None => lookup_prop(props@, k2) == lookup_prop(p0, k2),
                            Some(a2) => if a2.len() == 0 {
                                lookup_prop(props@, k2) is None
                            } else {
                                lookup_prop(props@, k2) is Some && lookup_prop(props@, k2)->Some_0@ == register_from(a2)
                            },
                        } by {
                            assert(props_diff_for(d@.take(j - 1), k2) == props_diff_for(d@.take(j as int).drop_last(), k2));
                        }
                    }
                }
                assert(d@.take(j as int) =~= d@);
                self.swap_body(i, ObjectBody::MapObject(mt, props));
            },
            _ => unreached(),
        }
    }
}

/// The kind of object a diff is for.
pub open spec fn diff_kind(d: ObjectDiff) -> ObjType {
    match d {
        ObjectDiff::Props(mt, _) => ObjType::MapLike(mt),
        ObjectDiff::Edits(st, _) => ObjType::Sequence(st),
    }
}

/// What applying diff `d` to object `id` of `objs` does: refused, with
/// nothing changed, for a missing object or one of another kind; otherwise
/// the object's props or elements change as the diff says and every other
/// object is kept.
pub open spec fn object_diff_effect(
    objs: Seq<StateObject>,
    new: Seq<StateObject>,
    id: ObjectId,
    d: ObjectDiff,
    r: Result<(), InvalidPatch>,
) -> bool {
    let i = object_index(objs, id);
    if i < 0 {
        r == Err::<(), InvalidPatch>(InvalidPatch::UnknownObject { object_id: id })
            && new == objs
    } else if !crate::state_tree::kind_matches(objs[i].body, diff_kind(d)) {
        r == Err::<(), InvalidPatch>(InvalidPatch::MismatchedType) && new == objs
    } else {
        &&& new.len() == objs.len()
        &&& new[i].id == objs[i].id
        &&& forall|j: int| 0 <= j < objs.len() && j != i ==> #[trigger] new[j] == objs[j]
        &&& match d {
            ObjectDiff::Props(_, pd) => r is Ok && new[i].body is MapObject
                && new[i].body->MapObject_0 == objs[i].body->MapObject_0 && props_applied(
                objs[i].body->MapObject_1@,
                new[i].body->MapObject_1@,
                pd@,
            ),
            ObjectDiff::Edits(SeqType::List, edits) => match apply_edits::<MultiValue>(
                objs[i].body->ListObject_0@,
                id,
                edits@,
            ) {
                Ok(s) => r is Ok && new[i].body is ListObject
                    && new[i].body->ListObject_0@ == finish_all::<MultiValue>(s),
                Err(e) => r == Err::<(), InvalidPatch>(e),
            },
            ObjectDiff::Edits(SeqType::Text, edits) => match apply_edits::<MultiGrapheme>(
                objs[i].body->TextObject_0@,
                id,
                edits@,
            ) {
                Ok(s) => r is Ok && new[i].body is TextObject
                    && new[i].body->TextObject_0@ == finish_all::<MultiGrapheme>(s),
                Err(e) => r == Err::<(), InvalidPatch>(e),
            },
        }
    }
}

impl StateTree {
    /// Applies what a patch says of object `id`: props for a map or table,
    /// edits for a list or text. An object the tree lacks, or one of another
    /// kind, is refused and nothing changes.
    pub fn apply_object_diff(&mut self, id: &ObjectId, d: &ObjectDiff) -> (r: Result<(), InvalidPatch>)
        requires
            old(self).wf(),
        ensures
            final(self).wf(),
            object_diff_effect(old(self).objects@, final(self).objects@, *id, *d, r),
    {
        let ghost objs0 = self.objects@;
        proof {
            lemma_object_index(objs0, *id);
            lemma_object_index(objs0, ObjectId::Root);
        }
        let i = match self.find_object(id) {
            Some(i) => i,
            None => {
                return Err(InvalidPatch::UnknownObject { object_id: id.copy() });
            },
        };
        let fits = match (&self.objects[i].body, d) {
            (ObjectBody::MapObject(mt, _), ObjectDiff::Props(mt2, _)) => *mt == *mt2,
            (ObjectBody::ListObject(_), ObjectDiff::Edits(SeqType::List, _)) => true,
            (ObjectBody::TextObject(_), ObjectDiff::Edits(SeqType::Text, _)) => true,
            _ => false,
        };
        if !fits {
            return Err(InvalidPatch::MismatchedType);
        }
        match d {
            ObjectDiff::Props(_, pd) => {
                self.apply_props(i, pd);
                Ok(())
            },
            ObjectDiff::Edits(_, edits) => {
                assert(body_wf(objs0[i as int].body));
                let body = self.swap_body(i, ObjectBody::MapObject(MapType::Plain, Vec::new()));
                let ghost objs1 = self.objects@;
                match body {
                    ObjectBody::ListObject(s) => {
                        let mut s = s;
                        let r = s.apply_diff(id, edits);
                        self.swap_body(i, ObjectBody::ListObject(s));
                        r
                    },
                    ObjectBody::TextObject(s) => {
                        let mut s = s;
                        let r = s.apply_diff(id, edits);
                        self.swap_body(i, ObjectBody::TextObject(s));
                        r
                    },
                    _ => unreached(),
                }
            },
        }
    }

    /// Adds an empty object for every link a diff holds that names an object
    /// the tree lacks.
    fn ensure_linked(&mut self, d: &ObjectDiff)
        requires
            old(self).wf(),
        ensures
            final(self).wf(),
            fresh_extends(old(self).objects@, final(self).objects@),
    {
        let ghost objs0 = self.objects@;
        assert(objs0.subrange(0, objs0.len() as int) =~= objs0);
        match d {
            ObjectDiff::Props(_, pd) => {
                let mut j: usize = 0;
                while j < pd.len()
                    invariant
                        self.wf(),
                        fresh_extends(objs0, self.objects@),
                        objs0 == old(self).objects@,
                    decreases pd@.len() - j,
                {
                    let a = &pd[j].1;
                    let mut k: usize = 0;
                    while k < a.len()
                        invariant
                            self.wf(),
                            fresh_extends(objs0, self.objects@),
                        decreases a@.len() - k,
                    {
                        let ghost before = self.objects@;
                        match &a[k].1 {
                            Diff::Object(t, o) => self.ensure_object(o, *t),
                            Diff::Value(_) => {},
                        }
                        proof {
                            assert(before.subrange(0, before.len() as int) =~= before);
                            lemma_fresh_trans(objs0, before, self.objects@);
                        }
                        k = k + 1;
                    }
                    j = j + 1;
                }
            },
            ObjectDiff::Edits(_, edits) => {
                let mut j: usize = 0;
                while j < edits.len()
                    invariant
                        self.wf(),
                        fresh_extends(objs0, self.objects@),
                        objs0 == old(self).objects@,
                    decreases edits@.len() - j,
                {
                    let ghost before = self.objects@;
                    match &edits[j] {
                        DiffEdit::SingleElementInsert { value: Diff::Object(t, o), .. } => self.ensure_object(o, *t),
                        DiffEdit::Update { value: Diff::Object(t, o), .. } => self.ensure_object(o, *t),
                        _ => {},
                    }
                    proof {
                        assert(before.subrange(0, before.len() as int) =~= before);
                        lemma_fresh_trans(objs0, before, self.objects@);
                    }
                    j = j + 1;
                }
            },
        }
    }

    /// Applies a patch: first every object a link in it names is made, then
    /// each object's diff is applied in order. The first refusal ends the
    /// patch; the tree is then to be discarded.
    pub fn apply_patch(&mut self, diffs: &Vec<(ObjectId, ObjectDiff)>) -> (r: Result<(), InvalidPatch>)
        requires
            old(self).wf(),
        ensures
            final(self).wf(),
            patch_effect(old(self).objects@, final(self).objects@, diffs@, r),
    {
        let ghost objs0 = self.objects@;
        assert(objs0.subrange(0, objs0.len() as int) =~= objs0);
        let mut j: usize = 0;
        while j < diffs.len()
            invariant
                self.wf(),
                objs0 == old(self).objects@,
                fresh_extends(objs0, self.objects@),
            decreases diffs@.len() - j,
        {
            let ghost before = self.objects@;
            self.ensure_linked(&diffs[j].1);
            proof {
                lemma_fresh_trans(objs0, before, self.objects@);
            }
            j = j + 1;
        }
        let ghost linked = self.objects@;
        let ghost mut states: Seq<Seq<StateObject>> = seq![linked];
        let mut k: usize = 0;
        while k < diffs.len()
            invariant
                self.wf(),
                objs0 == old(self).objects@,
                fresh_extends(objs0, linked),
                k <= diffs@.len(),
                patch_steps(states, diffs@, k as int),
                states[0] == linked,
                states.last() == self.objects@,
            decreases diffs@.len() - k,
        {
            let ghost before = self.objects@;
            let e = &diffs[k];
            let r = self.apply_object_diff(&e.0, &e.1);
            if r.is_err() {
                assert(patch_steps(states, diffs@, k as int) && fresh_extends(objs0, states[0]) && k < diffs@.len()
                    && object_diff_effect(states[k as int], self.objects@, diffs@[k as int].0, diffs@[k as int].1, r));
                return r;
            }
            proof {
                let st2 = states.push(self.objects@);
                assert forall|t: int| 0 <= t < k + 1 implies #[trigger] object_diff_effect(
                    st2[t],
                    st2[t + 1],
                    diffs@[t].0,
                    diffs@[t].1,
                    Ok(()),
                ) by {
                    if t < k {
                        assert(st2[t] == states[t] && st2[t + 1] == states[t + 1]);
                    }
                }
                states = st2;
            }
            k = k + 1;
        }
        assert(patch_steps(states, diffs@, k as int) && fresh_extends(objs0, states[0]));
        Ok(())
    }
}

/// `linked` is `objs` with objects added after it.
pub open spec fn extends(objs: Seq<StateObject>, linked: Seq<StateObject>) -> bool {
    linked.len() >= objs.len() && linked.subrange(0, objs.len() as int) == objs
}

/// `linked` is `objs` with objects added after it, each with an id no
/// object before it has.
pub open spec fn fresh_extends(objs: Seq<StateObject>, linked: Seq<StateObject>) -> bool {
    &&& extends(objs, linked)
    &&& forall|t: int|
        objs.len() <= t < linked.len() ==> object_index(linked.subrange(0, t), (#[trigger] linked[t]).id) == -1
}

pub proof fn lemma_fresh_trans(a: Seq<StateObject>, b: Seq<StateObject>, c: Seq<StateObject>)
    requires
        fresh_extends(a, b),
        fresh_extends(b, c),
    ensures
        fresh_extends(a, c),
{
    assert(c.subrange(0, a.len() as int) =~= b.subrange(0, a.len() as int));
    assert forall|t: int| a.len() <= t < c.len() implies object_index(c.subrange(0, t), (#[trigger] c[t]).id) == -1 by {
        if t < b.len() {
            assert(c.subrange(0, t) =~= b.subrange(0, t));
            assert(c[t] == c.subrange(0, b.len() as int)[t]);
        }
    }
}

/// The first `k` object diffs of a patch, accepted one after the other,
/// take `states[j]` to `states[j + 1]`.
pub open spec fn patch_steps(states: Seq<Seq<StateObject>>, diffs: Seq<(ObjectId, ObjectDiff)>, k: int) -> bool {
    &&& 0 <= k <= diffs.len()
    &&& states.len() == k + 1
    &&& forall|j: int|
        0 <= j < k ==> #[trigger] object_diff_effect(states[j], states[j + 1], diffs[j].0, diffs[j].1, Ok(()))
}

/// What applying a patch does: objects are added for the links it names;
/// then its object diffs apply in order, all of them when it is accepted,
/// up to the one refused otherwise.
pub open spec fn patch_effect(
    old: Seq<StateObject>,
    new: Seq<StateObject>,
    diffs: Seq<(ObjectId, ObjectDiff)>,
    r: Result<(), InvalidPatch>,
) -> bool {
    exists|states: Seq<Seq<StateObject>>, k: int|
        #[trigger] patch_steps(states, diffs, k) && fresh_extends(old, states[0]) && if r is Ok {
            k == diffs.len() && new == states[k]
        } else {
            k < diffs.len() && object_diff_effect(states[k], new, diffs[k].0, diffs[k].1, r)
        }
}

/// Objects that keep their ids keep their positions.
pub proof fn lemma_same_ids(a: Seq<StateObject>, b: Seq<StateObject>, id: ObjectId)
    requires
        a.len() == b.len(),
        forall|j: int| 0 <= j < a.len() ==> (#[trigger] a[j]).id == b[j].id,
    ensures
        object_index(a, id) == object_index(b, id),
    decreases a.len(),
{
    if a.len() > 0 {
        lemma_same_ids(a.drop_last(), b.drop_last(), id);
    }
}

/// Two maps hold registers with the same entries under every key.
pub open spec fn same_registers(a: Seq<(String, MultiValue)>, b: Seq<(String, MultiValue)>) -> bool {
    forall|k: Seq<char>|
        (#[trigger] lookup_prop(a, k) is None && lookup_prop(b, k) is None) || (lookup_prop(a, k) is Some
            && lookup_prop(b, k) is Some && lookup_prop(a, k)->Some_0@ == lookup_prop(b, k)->Some_0@)
}

/// Setting key `k` of a map to a scalar locally, with op `o`, leaves the same
/// registers as a patch that gives `k` the one assignment `o` made.
pub proof fn lemma_scalar_set_matches_patch(
    old: Seq<(String, MultiValue)>,
    local: Seq<(String, MultiValue)>,
    patched: Seq<(String, MultiValue)>,
    k: String,
    v: crate::protocol::ScalarValue,
    o: OpId,
    d: Seq<(String, Vec<(OpId, Diff)>)>,
)
    requires
        crate::state_tree::prop_set(
            old,
            local,
            k@,
            seq![(o, crate::new_value::created_entry(crate::value::Value::Primitive(v), o))],
        ),
        d.len() == 1,
        d[0].0@ == k@,
        d[0].1@ == seq![(o, Diff::Value(v))],
        props_applied(old, patched, d),
    ensures
        same_registers(local, patched),
{
    let a = seq![(o, Diff::Value(v))];
    assert(a.drop_last() =~= Seq::<(OpId, Diff)>::empty());
    assert(register_from(a.drop_last()) == Seq::<(OpId, StateTreeValue)>::empty());
    assert(crate::multivalue::find_opid(Seq::<(OpId, StateTreeValue)>::empty(), o) == -1);
    assert(register_from(a) =~= seq![(o, StateTreeValue::Leaf(v))]);
    assert forall|k2: Seq<char>|
        (#[trigger] lookup_prop(local, k2) is None && lookup_prop(patched, k2) is None) || (lookup_prop(local, k2) is Some
            && lookup_prop(patched, k2) is Some && lookup_prop(local, k2)->Some_0@ == lookup_prop(patched, k2)->Some_0@) by {
        assert(d.drop_last() =~= Seq::<(String, Vec<(OpId, Diff)>)>::empty());
        if k2 == k@ {
            assert(props_diff_for(d, k2) == Some(a));
        } else {
            assert(d.last() == d[0]);
            assert(props_diff_for(d.drop_last(), k2) is None);
            assert(props_diff_for(d, k2) is None);
        }
    }
}

/// Scalars as values.
pub open spec fn scalar_values(vals: Seq<crate::protocol::ScalarValue>) -> Seq<crate::value::Value> {
    vals.map_values(|v: crate::protocol::ScalarValue| crate::value::Value::Primitive(v))
}

/// The new elements a patch inserts for a run of scalars, op ids counted up
/// from `base`.
pub open spec fn inserted_run(base: OpId, vals: Seq<crate::protocol::ScalarValue>) -> Seq<
    (OpId, ElementState<Seq<(OpId, StateTreeValue)>>),
> {
    Seq::new(
        vals.len(),
        |j: int|
            {
                let o = OpId { counter: (base.counter + j) as u64, actor: base.actor };
                (o, ElementState::New(seq![(o, StateTreeValue::Leaf(vals[j]))]))
            },
    )
}

pub proof fn lemma_insert_run_scalars(
    s: Seq<(OpId, ElementState<Seq<(OpId, StateTreeValue)>>)>,
    index: int,
    base: OpId,
    vals: Seq<crate::protocol::ScalarValue>,
)
    requires
        0 <= index <= s.len(),
        base.counter + vals.len() <= u64::MAX,
    ensures
        insert_run::<MultiValue>(s, index, base, vals) == Ok::<
            Seq<(OpId, ElementState<Seq<(OpId, StateTreeValue)>>)>,
            InvalidPatch,
        >(s.subrange(0, index) + inserted_run(base, vals) + s.subrange(index, s.len() as int)),
    decreases vals.len(),
{
    if vals.len() == 0 {
        assert(s.subrange(0, index) + inserted_run(base, vals) + s.subrange(index, s.len() as int) =~= s);
    } else {
        let k = vals.len() - 1;
        lemma_insert_run_scalars(s, index, base, vals.drop_last());
        let prev = s.subrange(0, index) + inserted_run(base, vals.drop_last()) + s.subrange(index, s.len() as int);
        let o = OpId { counter: (base.counter + k) as u64, actor: base.actor };
        let reg = seq![(o, StateTreeValue::Leaf(vals.last()))];
        assert(crate::multivalue::max_index(reg) == 0);
        assert(prev.insert(index + k, (o, ElementState::New(reg))) =~= s.subrange(0, index) + inserted_run(
            base,
            vals,
        ) + s.subrange(index, s.len() as int));
    }
}

/// Inserting a run of scalars into a list locally, from op `base` on, leaves
/// the same elements as a patch that inserts those scalars at the same index
/// with element ids counted up from `base`.
pub proof fn lemma_scalar_run_matches_patch(
    s: Seq<(OpId, ElementState<Seq<(OpId, StateTreeValue)>>)>,
    object_id: ObjectId,
    index: u64,
    base: OpId,
    edit: DiffEdit,
)
    requires
        steady::<MultiValue>(s),
        index <= s.len(),
        edit == (DiffEdit::MultiElementInsert {
            index,
            elem_id: crate::protocol::ElementId::Id(base),
            values: edit->MultiElementInsert_values,
        }),
        base.counter + edit->MultiElementInsert_values@.len() <= u64::MAX,
    ensures
        apply_edit::<MultiValue>(s, object_id, edit) is Ok,
        finish_all::<MultiValue>(apply_edit::<MultiValue>(s, object_id, edit)->Ok_0) == s.subrange(0, index as int)
            + crate::resolved_path::run_elements(
            scalar_values(edit->MultiElementInsert_values@),
            base.counter,
            base.actor,
        ) + s.subrange(index as int, s.len() as int),
{
    let vals = edit->MultiElementInsert_values@;
    lemma_insert_run_scalars(s, index as int, base, vals);
    let values = scalar_values(vals);
    let got = finish_all::<MultiValue>(s.subrange(0, index as int) + inserted_run(base, vals) + s.subrange(
        index as int,
        s.len() as int,
    ));
    let want = s.subrange(0, index as int) + crate::resolved_path::run_elements(values, base.counter, base.actor)
        + s.subrange(index as int, s.len() as int);
    assert forall|j: int| 0 <= j < vals.len() implies #[trigger] crate::value::items_op_count(values.take(j)) == j by {
        assert forall|t: int| 0 <= t < values.take(j).len() implies (#[trigger] values.take(j)[t]) is Primitive by {
        }
        crate::mutation::lemma_items_primitive(values.take(j));
    }
    assert(got.len() == want.len());
    assert forall|j: int| 0 <= j < got.len() implies got[j] == want[j] by {
        if j < index {
            assert(s[j].1 is Original);
        } else if j < index + vals.len() {
            assert(crate::value::items_op_count(values.take(j - index)) == j - index);
        } else {
            assert(s[j - vals.len()].1 is Original);
        }
    }
    assert(got =~= want);
}

} // verus!
