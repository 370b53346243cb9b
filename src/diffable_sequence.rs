//! Ordered sequences that apply a patch's edits in two phases.

use vstd::prelude::*;

use crate::multivalue::DiffableValue;
use crate::protocol::{Diff, DiffEdit, ElementId, InvalidPatch, ObjectId, OpId, ScalarValue};

verus! {

/// The state of one element while a patch is applied to its sequence.
pub enum UpdatingSequenceElement<T> {
    /// Steady state.
    Original(T),
    /// Inserted by the current patch.
    New(T),
    /// Updated by the current patch; the updates are folded in at `finish`.
    Updated { original: T, initial_update: T, remaining_updates: Vec<T> },
}

/// The model of an element's state.
pub enum ElementState<V> {
    Original(V),
    New(V),
    Updated(V, V, Seq<V>),
}

/// `acc` with each of `rs` merged in, in order.
pub open spec fn merge_all<T: DiffableValue>(acc: T::V, rs: Seq<T::V>) -> T::V
    decreases rs.len(),
{
    if rs.len() == 0 {
        acc
    } else {
        T::merged(merge_all::<T>(acc, rs.drop_last()), rs.last())
    }
}

/// An element's state after one more update `u` in the current patch.
pub open spec fn update_state<V>(e: ElementState<V>, u: V) -> ElementState<V> {
    match e {
        ElementState::Original(v) => ElementState::Updated(v, u, Seq::empty()),
        ElementState::New(v) => ElementState::Updated(v, v, seq![u]),
        ElementState::Updated(o, i, rs) => ElementState::Updated(o, i, rs.push(u)),
    }
}

/// The value an element settles to when the patch is done.
pub open spec fn finish_state<T: DiffableValue>(e: ElementState<T::V>) -> T::V {
    match e {
        ElementState::Original(v) => v,
        ElementState::New(v) => v,
        ElementState::Updated(_o, i, rs) => merge_all::<T>(i, rs),
    }
}

/// The element's current value is a valid one.
pub open spec fn state_valid<T: DiffableValue>(e: ElementState<T::V>) -> bool {
    match e {
        ElementState::Original(v) => T::valid(v),
        ElementState::New(v) => T::valid(v),
        ElementState::Updated(_o, i, rs) => T::valid(i) && forall|j: int| 0 <= j < rs.len() ==> T::valid(#[trigger] rs[j]),
    }
}

/// Every element is settled and valid.
pub open spec fn steady<T: DiffableValue>(s: Seq<(OpId, ElementState<T::V>)>) -> bool {
    forall|i: int|
        0 <= i < s.len() ==> (#[trigger] s[i]).1 is Original && T::valid(s[i].1->Original_0)
}

pub open spec fn all_valid<T: DiffableValue>(s: Seq<(OpId, ElementState<T::V>)>) -> bool {
    forall|i: int| 0 <= i < s.len() ==> state_valid::<T>((#[trigger] s[i]).1)
}

/// Every element settled.
pub open spec fn finish_all<T: DiffableValue>(s: Seq<(OpId, ElementState<T::V>)>) -> Seq<
    (OpId, ElementState<T::V>),
> {
    s.map_values(|p: (OpId, ElementState<T::V>)| (p.0, ElementState::Original(finish_state::<T>(p.1))))
}

/// The elements a `MultiElementInsert` puts at `index`, with op ids counted
/// up from `base`.
pub open spec fn insert_run<T: DiffableValue>(
    s: Seq<(OpId, ElementState<T::V>)>,
    index: int,
    base: OpId,
    vals: Seq<ScalarValue>,
) -> Result<Seq<(OpId, ElementState<T::V>)>, InvalidPatch>
    decreases vals.len(),
{
    if vals.len() == 0 {
        Ok(s)
    } else {
        match insert_run::<T>(s, index, base, vals.drop_last()) {
            Err(e) => Err(e),
            Ok(s2) => {
                let k = vals.len() - 1;
                if base.counter + k > u64::MAX {
                    Err(InvalidPatch::InvalidElementId)
                } else {
                    let opid = OpId { counter: (base.counter + k) as u64, actor: base.actor };
                    match T::constructed(opid, Diff::Value(vals.last())) {
                        None => Err(InvalidPatch::MismatchedType),
                        Some(v) => Ok(s2.insert(index + k, (T::default_of(v), ElementState::New(v)))),
                    }
                }
            },
        }
    }
}

/// One edit of a patch applied to a sequence's model.
pub open spec fn apply_edit<T: DiffableValue>(
    s: Seq<(OpId, ElementState<T::V>)>,
    object_id: ObjectId,
    edit: DiffEdit,
) -> Result<Seq<(OpId, ElementState<T::V>)>, InvalidPatch> {
    match edit {
        DiffEdit::Remove { index, count } => {
            if index >= s.len() {
                Err(InvalidPatch::InvalidIndex { object_id, index })
            } else if index + count > s.len() {
                Err(InvalidPatch::InvalidIndex { object_id, index: s.len() as u64 })
            } else {
                Ok(s.subrange(0, index as int) + s.subrange(index + count, s.len() as int))
            }
        },
        DiffEdit::SingleElementInsert { index, elem_id: _, op_id, value } => {
            match T::constructed(op_id, value) {
                None => Err(InvalidPatch::MismatchedType),
                Some(v) => if index > s.len() {
                    Err(InvalidPatch::InvalidIndex { object_id, index })
                } else {
                    Ok(s.insert(index as int, (T::default_of(v), ElementState::New(v))))
                },
            }
        },
        DiffEdit::MultiElementInsert { index, elem_id, values } => {
            if index > s.len() {
                Err(InvalidPatch::InvalidIndex { object_id, index })
            } else {
                match elem_id {
                    ElementId::Head => if values@.len() == 0 {
                        Ok(s)
                    } else {
                        Err(InvalidPatch::InvalidElementId)
                    },
                    ElementId::Id(base) => insert_run::<T>(s, index as int, base, values@),
                }
            }
        },
        DiffEdit::Update { index, op_id, value } => {
            if index >= s.len() {
                Err(InvalidPatch::InvalidIndex { object_id, index })
            } else {
                match T::constructed(op_id, value) {
                    None => Err(InvalidPatch::MismatchedType),
                    Some(u) => Ok(s.update(index as int, (s[index as int].0, update_state(s[index as int].1, u)))),
                }
            }
        },
    }
}

/// The edits applied one after the other, stopping at the first error.
pub open spec fn apply_edits<T: DiffableValue>(
    s: Seq<(OpId, ElementState<T::V>)>,
    object_id: ObjectId,
    edits: Seq<DiffEdit>,
) -> Result<Seq<(OpId, ElementState<T::V>)>, InvalidPatch>
    decreases edits.len(),
{
    if edits.len() == 0 {
        Ok(s)
    } else {
        match apply_edits::<T>(s, object_id, edits.drop_last()) {
            Err(e) => Err(e),
            Ok(s2) => apply_edit::<T>(s2, object_id, edits.last()),
        }
    }
}

impl<T: DiffableValue> UpdatingSequenceElement<T> {
    pub open spec fn state(&self) -> ElementState<T::V> {
        match self {
            UpdatingSequenceElement::Original(v) => ElementState::Original(v@),
            UpdatingSequenceElement::New(v) => ElementState::New(v@),
            UpdatingSequenceElement::Updated { original, initial_update, remaining_updates } => {
                ElementState::Updated(
                    original@,
                    initial_update@,
                    remaining_updates@.map_values(|x: T| x@),
                )
            },
        }
    }

    /// Records one more update of this element in the current patch.
    pub fn apply_update(self, update: T) -> (r: Self)
        ensures
            r.state() == update_state(self.state(), update@),
    {
        match self {
            UpdatingSequenceElement::Original(v) => {
                let r = UpdatingSequenceElement::Updated {
                    original: v,
                    initial_update: update,
                    remaining_updates: Vec::new(),
                };
                assert(r.state()->Updated_2 =~= Seq::<T::V>::empty());
                r
            },
            UpdatingSequenceElement::New(v) => {
                let copy = v.duplicate();
                let mut rs: Vec<T> = Vec::new();
                rs.push(update);
                let r = UpdatingSequenceElement::Updated {
                    original: v,
                    initial_update: copy,
                    remaining_updates: rs,
                };
                assert(r.state()->Updated_2 =~= seq![update@]);
                r
            },
            UpdatingSequenceElement::Updated { original, initial_update, remaining_updates } => {
                let ghost before = remaining_updates@.map_values(|x: T| x@);
                let mut rs = remaining_updates;
                rs.push(update);
                let r = UpdatingSequenceElement::Updated {
                    original,
                    initial_update,
                    remaining_updates: rs,
                };
                assert(r.state()->Updated_2 =~= before.push(update@));
                r
            },
        }
    }

    /// Records an update by op `opid` with `diff`: the value that diff builds
    /// is buffered until the patch is done.
    pub fn apply_diff(self, opid: &OpId, diff: &Diff) -> (r: Result<Self, InvalidPatch>)
        ensures
            match T::constructed(*opid, *diff) {
                Some(u) => r is Ok && r->Ok_0.state() == update_state(self.state(), u) && T::valid(u),
                None => r == Err::<Self, InvalidPatch>(InvalidPatch::MismatchedType),
            },
    {
        let update = T::construct(opid, diff)?;
        Ok(self.apply_update(update))
    }

    /// Folds the recorded updates into one settled value.
    pub fn finish(self) -> (r: T)
        ensures
            r@ == finish_state::<T>(self.state()),
    {
        match self {
            UpdatingSequenceElement::Original(v) => v,
            UpdatingSequenceElement::New(v) => v,
            UpdatingSequenceElement::Updated { original: _, initial_update, remaining_updates } => {
                let ghost init = initial_update@;
                let ghost all = remaining_updates@;
                let ghost views = all.map_values(|x: T| x@);
                let n = remaining_updates.len();
                let mut acc = initial_update;
                let mut rest = remaining_updates;
                let mut k: usize = 0;
                while rest.len() > 0
                    invariant
                        k + rest@.len() == n,
                        n == all.len(),
                        views == all.map_values(|x: T| x@),
                        rest@ == all.skip(k as int),
                        acc@ == merge_all::<T>(init, views.take(k as int)),
                    decreases rest@.len(),
                {
                    let x = rest.remove(0);
                    proof {
                        assert(views.take(k + 1).drop_last() =~= views.take(k as int));
                        assert(x == all[k as int]);
                        assert(rest@ =~= all.skip(k + 1));
                    }
                    acc.add_values_from(x);
                    k = k + 1;
                }
                assert(views.take(k as int) =~= views);
                acc
            },
        }
    }
}

/// An ordered container of elements, each with the id of the op that made it,
/// that applies a patch's edits in two phases: edits first, then every
/// element settles.
///
/// The elements are kept in a `Vec`, in order; a snapshot of the sequence is
/// a copy taken at a session boundary.
pub struct DiffableSequence<T> {
    pub underlying: Vec<(OpId, UpdatingSequenceElement<T>)>,
}

impl<T: DiffableValue> View for DiffableSequence<T> {
    type V = Seq<(OpId, ElementState<T::V>)>;

    open spec fn view(&self) -> Seq<(OpId, ElementState<T::V>)> {
        self.underlying@.map_values(
            |p: (OpId, UpdatingSequenceElement<T>)| (p.0, p.1.state()),
        )
    }
}

impl<T: DiffableValue> DiffableSequence<T> {
    pub open spec fn wf(&self) -> bool {
        steady::<T>(self@)
    }

    /// The settled values, with their element ids.
    pub open spec fn values(&self) -> Seq<(OpId, T::V)> {
        self@.map_values(|p: (OpId, ElementState<T::V>)| (p.0, p.1->Original_0))
    }

    pub fn new() -> (r: DiffableSequence<T>)
        ensures
            r@ == Seq::<(OpId, ElementState<T::V>)>::empty(),
            r.wf(),
    {
        let r = DiffableSequence { underlying: Vec::new() };
        assert(r@ =~= Seq::<(OpId, ElementState<T::V>)>::empty());
        r
    }

    /// A settled sequence of `values`, each under its default op id.
    pub fn new_from(values: Vec<T>) -> (r: DiffableSequence<T>)
        requires
            forall|i: int| 0 <= i < values@.len() ==> T::valid(#[trigger] values@[i]@),
        ensures
            r.wf(),
            r@.len() == values@.len(),
            forall|i: int|
                0 <= i < values@.len() ==> #[trigger] r@[i] == (
                    T::default_of(values@[i]@),
                    ElementState::Original(values@[i]@),
                ),
    {
        let ghost vs = values@;
        let mut r = DiffableSequence::new();
        let mut rest = values;
        let mut k: usize = 0;
        let n = rest.len();
        while rest.len() > 0
            invariant
                r.wf(),
                k + rest@.len() == vs.len(),
                n == vs.len(),
                rest@ == vs.skip(k as int),
                r@.len() == k,
                forall|i: int| 0 <= i < vs.len() ==> T::valid(#[trigger] vs[i]@),
                forall|i: int| 0 <= i < k ==> #[trigger] r@[i] == (T::default_of(vs[i]@), ElementState::Original(vs[i]@)),
            decreases rest@.len(),
        {
            let v = rest.remove(0);
            proof {
                assert(rest@ =~= vs.skip(k + 1));
                assert(v == vs[k as int]);
            }
            r.insert(k, v);
            k = k + 1;
        }
        r
    }

    pub fn len(&self) -> (r: usize)
        ensures
            r == self@.len(),
    {
        self.underlying.len()
    }

    /// Inserts a settled value at `index`; its element id is its default op id.
    pub fn insert(&mut self, index: usize, value: T)
        requires
            old(self).wf(),
            index <= old(self)@.len(),
            T::valid(value@),
        ensures
            final(self)@ == old(self)@.insert(index as int, (T::default_of(value@), ElementState::Original(value@))),
            final(self).wf(),
    {
        let id = value.default_opid();
        let ghost before = self@;
        self.underlying.insert(index, (id, UpdatingSequenceElement::Original(value)));
        assert(self@ =~= before.insert(index as int, (id, ElementState::Original(value@))));
        assert forall|i: int| 0 <= i < self@.len() implies (#[trigger] self@[i]).1 is Original
            && T::valid(self@[i].1->Original_0) by {
            if i < index {
                assert(self@[i] == before[i]);
            } else if i > index {
                assert(self@[i] == before[i - 1]);
            }
        }
    }

    /// Removes the element at `index` and returns its value.
    pub fn remove(&mut self, index: usize) -> (r: T)
        requires
            old(self).wf(),
            index < old(self)@.len(),
        ensures
            final(self)@ == old(self)@.remove(index as int),
            r@ == old(self).values()[index as int].1,
            final(self).wf(),
    {
        let ghost before = self@;
        let (_id, e) = self.underlying.remove(index);
        assert(self@ =~= before.remove(index as int));
        assert forall|i: int| 0 <= i < self@.len() implies (#[trigger] self@[i]).1 is Original
            && T::valid(self@[i].1->Original_0) by {
            if i < index {
                assert(self@[i] == before[i]);
            } else {
                assert(self@[i] == before[i + 1]);
            }
        }
        assert(before[index as int].1 is Original);
        match e {
            UpdatingSequenceElement::Original(v) => v,
            _ => unreached(),
        }
    }

    /// Replaces the value at `index`, keeping its element id.
    pub fn set(&mut self, index: usize, value: T)
        requires
            old(self).wf(),
            index < old(self)@.len(),
            T::valid(value@),
        ensures
            final(self)@ == old(self)@.update(index as int, (old(self)@[index as int].0, ElementState::Original(value@))),
            final(self).wf(),
    {
        let ghost before = self@;
        let (id, _e) = self.underlying.remove(index);
        self.underlying.insert(index, (id, UpdatingSequenceElement::Original(value)));
        assert(self@ =~= before.update(index as int, (before[index as int].0, ElementState::Original(value@))));
        assert forall|i: int| 0 <= i < self@.len() implies (#[trigger] self@[i]).1 is Original
            && T::valid(self@[i].1->Original_0) by {
            if i != index {
                assert(self@[i] == before[i]);
            }
        }
    }

    /// The element at `index`, with its element id.
    pub fn get(&self, index: usize) -> (r: (&OpId, &T))
        requires
            self.wf(),
            index < self@.len(),
        ensures
            *r.0 == self@[index as int].0,
            r.1@ == self.values()[index as int].1,
            T::valid(r.1@),
    {
        let e = &self.underlying[index];
        assert(self@[index as int].1 is Original);
        match &e.1 {
            UpdatingSequenceElement::Original(v) => (&e.0, v),
            _ => unreached(),
        }
    }

    /// Applies a patch's edits in order; then every element settles. Stops at
    /// the first edit that fails, leaving the sequence unspecified.
    pub fn apply_diff(&mut self, object_id: &ObjectId, edits: &Vec<DiffEdit>) -> (r: Result<
        (),
        InvalidPatch,
    >)
        requires
            old(self).wf(),
        ensures
            match apply_edits::<T>(old(self)@, *object_id, edits@) {
                Ok(s) => r is Ok && final(self)@ == finish_all::<T>(s),
                Err(e) => r == Err::<(), InvalidPatch>(e),
            },
            final(self).wf(),
    {
        let ghost start = self@;
        let mut i: usize = 0;
        assert(edits@.take(0) =~= Seq::<DiffEdit>::empty());
        while i < edits.len()
            invariant
                i <= edits@.len(),
                start == old(self)@,
                apply_edits::<T>(start, *object_id, edits@.take(i as int)) == Ok::<
                    Seq<(OpId, ElementState<T::V>)>,
                    InvalidPatch,
                >(self@),
                all_valid::<T>(self@),
            decreases edits@.len() - i,
        {
            proof {
                assert(edits@.take(i + 1).drop_last() =~= edits@.take(i as int));
                assert(edits@.take(i + 1).last() == edits@[i as int]);
            }
            let step = self.apply_edit(object_id, &edits[i]);
            match step {
                Err(e) => {
                    proof {
                        lemma_edits_stop::<T>(start, *object_id, edits@, i as int + 1);
                    }
                    self.finish_all();
                    return Err(e);
                },
                Ok(()) => {},
            }
            i = i + 1;
        }
        assert(edits@.take(i as int) =~= edits@);
        self.finish_all();
        Ok(())
    }

    /// Settles every element.
    fn finish_all(&mut self)
        requires
            all_valid::<T>(old(self)@),
        ensures
            final(self)@ == finish_all::<T>(old(self)@),
            final(self).wf(),
    {
        let ghost start = self@;
        let n = self.underlying.len();
        let mut done: Vec<(OpId, UpdatingSequenceElement<T>)> = Vec::new();
        let mut rest: Vec<(OpId, UpdatingSequenceElement<T>)> = Vec::new();
        std::mem::swap(&mut rest, &mut self.underlying);
        let ghost all = rest@;
        let mut k: usize = 0;
        while rest.len() > 0
            invariant
                k + rest@.len() == n,
                n == all.len(),
                start == all.map_values(
                    |p: (OpId, UpdatingSequenceElement<T>)| (p.0, p.1.state()),
                ),
                rest@ == all.skip(k as int),
                done@.len() == k,
                forall|j: int|
                    0 <= j < k ==> (#[trigger] done@[j]).0 == all[j].0 && done@[j].1
                        == UpdatingSequenceElement::Original(
                        done@[j].1->Original_0,
                    ) && done@[j].1->Original_0@ == finish_state::<T>(all[j].1.state()),
            decreases rest@.len(),
        {
            let (id, e) = rest.remove(0);
            proof {
                assert(rest@ =~= all.skip(k + 1));
            }
            let v = e.finish();
            done.push((id, UpdatingSequenceElement::Original(v)));
            k = k + 1;
        }
        self.underlying = done;
        proof {
            assert(self@ =~= finish_all::<T>(start));
            assert forall|j: int| 0 <= j < self@.len() implies (#[trigger] self@[j]).1 is Original
                && T::valid(self@[j].1->Original_0) by {
                lemma_finish_valid::<T>(start[j].1);
            }
        }
    }

    /// One edit; on success the model follows `apply_edit`.
    fn apply_edit(&mut self, object_id: &ObjectId, edit: &DiffEdit) -> (r: Result<(), InvalidPatch>)
        requires
            all_valid::<T>(old(self)@),
        ensures
            match apply_edit::<T>(old(self)@, *object_id, *edit) {
                Ok(s) => r is Ok && final(self)@ == s && all_valid::<T>(s),
                Err(e) => r == Err::<(), InvalidPatch>(e),
            },
            all_valid::<T>(final(self)@),
    {
        let ghost s0 = self@;
        let len = self.underlying.len();
        match edit {
            DiffEdit::Remove { index, count } => {
                if *index >= len as u64 {
                    return Err(InvalidPatch::InvalidIndex { object_id: object_id.copy(), index: *index });
                }
                if *count > (len as u64) - *index {
                    return Err(InvalidPatch::InvalidIndex { object_id: object_id.copy(), index: len as u64 });
                }
                let at = *index as usize;
                let c = *count as usize;
                let mut j: usize = 0;
                while j < c
                    invariant
                        at + c <= len,
                        len == s0.len(),
                        j <= c,
                        self@ == s0.subrange(0, at as int) + s0.subrange(at + j, len as int),
                    decreases c - j,
                {
                    let ghost before = self@;
                    assert(self.underlying@.len() == self@.len());
                    self.underlying.remove(at);
                    assert(self@ =~= before.remove(at as int));
                    j = j + 1;
                    assert(self@ =~= s0.subrange(0, at as int) + s0.subrange(at + j, len as int));
                }
                assert(self@ =~= s0.subrange(0, at as int) + s0.subrange(at + c, len as int));
                Ok(())
            },
            DiffEdit::SingleElementInsert { index, elem_id: _, op_id, value } => {
                let node = T::construct(op_id, value)?;
                if *index > len as u64 {
                    return Err(InvalidPatch::InvalidIndex { object_id: object_id.copy(), index: *index });
                }
                let id = node.default_opid();
                self.underlying.insert(*index as usize, (id, UpdatingSequenceElement::New(node)));
                assert(self@ =~= s0.insert(*index as int, (id, ElementState::New(node@))));
                Ok(())
            },
            DiffEdit::MultiElementInsert { index, elem_id, values } => {
                if *index > len as u64 {
                    return Err(InvalidPatch::InvalidIndex { object_id: object_id.copy(), index: *index });
                }
                match elem_id {
                    ElementId::Head => {
                        if values.len() == 0 {
                            Ok(())
                        } else {
                            Err(InvalidPatch::InvalidElementId)
                        }
                    },
                    ElementId::Id(base) => self.insert_run(*index as usize, base, values),
                }
            },
            DiffEdit::Update { index, op_id, value } => {
                if *index >= len as u64 {
                    return Err(InvalidPatch::InvalidIndex { object_id: object_id.copy(), index: *index });
                }
                let at = *index as usize;
                let (id, e) = self.underlying.remove(at);
                let e2 = match e.apply_diff(op_id, value) {
                    Ok(e2) => e2,
                    Err(err) => {
                        proof {
                            assert forall|j: int| 0 <= j < self@.len() implies state_valid::<T>(
                                (#[trigger] self@[j]).1,
                            ) by {
                                if j < at {
                                    assert(self@[j] == s0[j]);
                                } else {
                                    assert(self@[j] == s0[j + 1]);
                                }
                            }
                        }
                        return Err(err);
                    },
                };
                self.underlying.insert(at, (id, e2));
                let ghost u = T::constructed(*op_id, *value)->Some_0;
                assert(self@ =~= s0.update(at as int, (s0[at as int].0, update_state(s0[at as int].1, u))));
                Ok(())
            },
        }
    }

    /// Inserts one new element per scalar, op ids counted up from `base`.
    fn insert_run(&mut self, index: usize, base: &OpId, values: &Vec<ScalarValue>) -> (r: Result<
        (),
        InvalidPatch,
    >)
        requires
            index <= old(self)@.len(),
            all_valid::<T>(old(self)@),
        ensures
            match insert_run::<T>(old(self)@, index as int, *base, values@) {
                Ok(s) => r is Ok && final(self)@ == s && all_valid::<T>(s),
                Err(e) => r == Err::<(), InvalidPatch>(e),
            },
            all_valid::<T>(final(self)@),
    {
        let ghost s0 = self@;
        let mut i: usize = 0;
        assert(values@.take(0) =~= Seq::<ScalarValue>::empty());
        while i < values.len()
            invariant
                i <= values@.len(),
                s0 == old(self)@,
                index <= s0.len(),
                insert_run::<T>(s0, index as int, *base, values@.take(i as int)) == Ok::<
                    Seq<(OpId, ElementState<T::V>)>,
                    InvalidPatch,
                >(self@),
                self@.len() == s0.len() + i,
                all_valid::<T>(self@),
            decreases values@.len() - i,
        {
            proof {
                assert(values@.take(i + 1).drop_last() =~= values@.take(i as int));
                lemma_run_stops::<T>(s0, index as int, *base, values@, i as int + 1);
            }
            let cur = self.underlying.len();
            if base.counter > u64::MAX - (i as u64) {
                assert(insert_run::<T>(s0, index as int, *base, values@.take(i + 1)) == Err::<
                    Seq<(OpId, ElementState<T::V>)>,
                    InvalidPatch,
                >(InvalidPatch::InvalidElementId));
                assert(insert_run::<T>(s0, index as int, *base, values@) == Err::<
                    Seq<(OpId, ElementState<T::V>)>,
                    InvalidPatch,
                >(InvalidPatch::InvalidElementId));
                return Err(InvalidPatch::InvalidElementId);
            }
            let opid = base.increment_by(i as u64);
            let diff = Diff::Value(values[i].copy());
            assert(values@.take(i + 1).last() == values@[i as int]);
            let node = match T::construct(&opid, &diff) {
                Ok(node) => node,
                Err(e) => {
                    assert(insert_run::<T>(s0, index as int, *base, values@.take(i + 1)) == Err::<
                        Seq<(OpId, ElementState<T::V>)>,
                        InvalidPatch,
                    >(InvalidPatch::MismatchedType));
                    return Err(e);
                },
            };
            let id = node.default_opid();
            let ghost before = self@;
            self.underlying.insert(index + i, (id, UpdatingSequenceElement::New(node)));
            assert(self@ =~= before.insert(index + i, (id, ElementState::New(node@))));
            i = i + 1;
        }
        assert(values@.take(i as int) =~= values@);
        Ok(())
    }
}

pub proof fn lemma_finish_valid<T: DiffableValue>(e: ElementState<T::V>)
    requires
        state_valid::<T>(e),
    ensures
        T::valid(finish_state::<T>(e)),
{
    if let ElementState::Updated(_o, i, rs) = e {
        lemma_merge_all_valid::<T>(i, rs);
    }
}

pub proof fn lemma_merge_all_valid<T: DiffableValue>(acc: T::V, rs: Seq<T::V>)
    requires
        T::valid(acc),
        forall|j: int| 0 <= j < rs.len() ==> T::valid(#[trigger] rs[j]),
    ensures
        T::valid(merge_all::<T>(acc, rs)),
    decreases rs.len(),
{
    if rs.len() > 0 {
        assert forall|j: int| 0 <= j < rs.len() - 1 implies T::valid(#[trigger] rs.drop_last()[j]) by {
            assert(rs.drop_last()[j] == rs[j]);
        }
        lemma_merge_all_valid::<T>(acc, rs.drop_last());
        T::lemma_merged_valid(merge_all::<T>(acc, rs.drop_last()), rs.last());
    }
}

/// Once an edit fails, the edits after it change nothing.
pub proof fn lemma_edits_stop<T: DiffableValue>(
    s: Seq<(OpId, ElementState<T::V>)>,
    object_id: ObjectId,
    edits: Seq<DiffEdit>,
    k: int,
)
    requires
        0 < k <= edits.len(),
        apply_edits::<T>(s, object_id, edits.take(k)) is Err,
    ensures
        apply_edits::<T>(s, object_id, edits) == apply_edits::<T>(s, object_id, edits.take(k)),
    decreases edits.len() - k,
{
    if k < edits.len() {
        assert(edits.take(k + 1).drop_last() =~= edits.take(k));
        lemma_edits_stop::<T>(s, object_id, edits, k + 1);
    } else {
        assert(edits.take(k) =~= edits);
    }
}

/// Once an insertion of a run fails, the rest of the run changes nothing.
pub proof fn lemma_run_stops<T: DiffableValue>(
    s: Seq<(OpId, ElementState<T::V>)>,
    index: int,
    base: OpId,
    vals: Seq<ScalarValue>,
    k: int,
)
    requires
        0 < k <= vals.len(),
    ensures
        insert_run::<T>(s, index, base, vals.take(k)) is Err ==> insert_run::<T>(s, index, base, vals)
            == insert_run::<T>(s, index, base, vals.take(k)),
    decreases vals.len() - k,
{
    if k < vals.len() {
        assert(vals.take(k + 1).drop_last() =~= vals.take(k));
        lemma_run_stops::<T>(s, index, base, vals, k + 1);
    } else {
        assert(vals.take(k) =~= vals);
    }
}

} // verus!
