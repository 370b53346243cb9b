//! Local changes and the tracker that applies them during a session.

use vstd::prelude::*;

use crate::grapheme::is_single_grapheme;
use crate::new_value::{op_width, ops_width, positive_widths};
use crate::protocol::{ActorId, Cursor, MapType, ObjType, ObjectId, Op, ScalarValue, SeqType};
use crate::resolved_path::{list_at, text_at, LocalOperationResult, SetOrInsertPayload, TargetMut};
use crate::state_tree::{object_index, register_at, resolve, Resolution, StateTree};
use crate::value::{
    entries_op_count, fits, is_grapheme_value, items_op_count, InvalidChangeRequest, Path, PathElement, Value,
};

verus! {

/// What a local change does at its path.
pub enum LocalOperation {
    Assign(Value),
    Delete,
    Increment(i64),
    Insert(Value),
    InsertMany(Vec<Value>),
}

/// A change a caller asks for: an operation at a path.
pub struct LocalChange {
    pub path: Path,
    pub operation: LocalOperation,
}

impl LocalChange {
    /// Set the value at `path` to `value`.
    pub fn set(path: Path, value: Value) -> (r: LocalChange)
        ensures
            r.path == path,
            r.operation == LocalOperation::Assign(value),
    {
        LocalChange { path, operation: LocalOperation::Assign(value) }
    }

    /// Delete the entry at `path`.
    pub fn delete(path: Path) -> (r: LocalChange)
        ensures
            r.path == path,
            r.operation == LocalOperation::Delete,
    {
        LocalChange { path, operation: LocalOperation::Delete }
    }

    /// Increment the counter at `path` by 1.
    pub fn increment(path: Path) -> (r: LocalChange)
        ensures
            r.path == path,
            r.operation == LocalOperation::Increment(1),
    {
        LocalChange { path, operation: LocalOperation::Increment(1) }
    }

    /// Increment the counter at `path` by a (possibly negative) amount `by`.
    pub fn increment_by(path: Path, by: i64) -> (r: LocalChange)
        ensures
            r.path == path,
            r.operation == LocalOperation::Increment(by),
    {
        LocalChange { path, operation: LocalOperation::Increment(by) }
    }

    /// Insert `value` at the index `path` ends with.
    pub fn insert(path: Path, value: Value) -> (r: LocalChange)
        ensures
            r.path == path,
            r.operation == LocalOperation::Insert(value),
    {
        LocalChange { path, operation: LocalOperation::Insert(value) }
    }

    /// Insert `values`, in order, at the index `path` ends with.
    pub fn insert_many(path: Path, values: Vec<Value>) -> (r: LocalChange)
        ensures
            r.path == path,
            r.operation == LocalOperation::InsertMany(values),
    {
        LocalChange { path, operation: LocalOperation::InsertMany(values) }
    }
}

/// The kinds of refusal of a local change.
#[derive(PartialEq, Eq, Structural, Clone, Copy, Debug)]
pub enum ChangeErrorKind {
    NoSuchPath,
    CannotSetNonMapObjectAsRoot,
    CannotOverwriteCounter,
    CannotDeleteRootObject,
    InsertForNonSequenceObject,
    InsertWithNonSequencePath,
    InsertNonTextInTextObject,
    IncrementForNonCounterObject,
    MissingIndex,
}

pub open spec fn error_kind(e: InvalidChangeRequest) -> ChangeErrorKind {
    match e {
        InvalidChangeRequest::NoSuchPathError { .. } => ChangeErrorKind::NoSuchPath,
        InvalidChangeRequest::CannotSetNonMapObjectAsRoot { .. } => ChangeErrorKind::CannotSetNonMapObjectAsRoot,
        InvalidChangeRequest::CannotOverwriteCounter { .. } => ChangeErrorKind::CannotOverwriteCounter,
        InvalidChangeRequest::CannotDeleteRootObject => ChangeErrorKind::CannotDeleteRootObject,
        InvalidChangeRequest::InsertForNonSequenceObject { .. } => ChangeErrorKind::InsertForNonSequenceObject,
        InvalidChangeRequest::InsertWithNonSequencePath { .. } => ChangeErrorKind::InsertWithNonSequencePath,
        InvalidChangeRequest::InsertNonTextInTextObject { .. } => ChangeErrorKind::InsertNonTextInTextObject,
        InvalidChangeRequest::IncrementForNonCounterObject { .. } => ChangeErrorKind::IncrementForNonCounterObject,
        InvalidChangeRequest::MissingIndexError { .. } => ChangeErrorKind::MissingIndex,
    }
}

/// A root, map or table.
pub open spec fn is_map_target(r: Resolution) -> bool {
    r is Root || (r is Composite && r->Composite_0 is MapLike)
}

pub open spec fn is_list_target(r: Resolution) -> bool {
    r is Composite && r->Composite_0 == ObjType::Sequence(SeqType::List)
}

pub open spec fn is_text_target(r: Resolution) -> bool {
    r is Composite && r->Composite_0 == ObjType::Sequence(SeqType::Text)
}

/// The length of the list or text a resolution names.
pub open spec fn seq_len(objs: Seq<crate::state_tree::StateObject>, r: Resolution) -> int {
    let i = object_index(objs, r->Composite_1);
    if is_list_target(r) {
        list_at(objs, i).len() as int
    } else {
        text_at(objs, i).len() as int
    }
}

/// Why setting one entry of a map given for the root would be refused.
pub open spec fn root_entry_error(objs: Seq<crate::state_tree::StateObject>, e: (String, Value)) -> Option<ChangeErrorKind> {
    let r = resolve(objs, seq![PathElement::Key(e.0)]);
    if r is Some && r->Some_0 is Counter {
        Some(ChangeErrorKind::CannotOverwriteCounter)
    } else if !fits(e.1) {
        Some(ChangeErrorKind::InsertNonTextInTextObject)
    } else {
        None
    }
}

/// The first refusal among the entries of a map given for the root.
pub open spec fn root_entries_error(objs: Seq<crate::state_tree::StateObject>, entries: Seq<(String, Value)>) -> Option<
    ChangeErrorKind,
>
    decreases entries.len(),
{
    if entries.len() == 0 {
        None
    } else {
        match root_entries_error(objs, entries.drop_last()) {
            Some(k) => Some(k),
            None => root_entry_error(objs, entries.last()),
        }
    }
}

/// Why `Set(v)` at `p` would be refused.
pub open spec fn set_error(objs: Seq<crate::state_tree::StateObject>, p: Seq<PathElement>, v: Value) -> Option<
    ChangeErrorKind,
> {
    if p.len() == 0 {
        match v {
            Value::Object(entries, MapType::Plain) => root_entries_error(objs, entries@),
            _ => Some(ChangeErrorKind::CannotSetNonMapObjectAsRoot),
        }
    } else if resolve(objs, p) is Some && resolve(objs, p)->Some_0 is Counter {
        Some(ChangeErrorKind::CannotOverwriteCounter)
    } else if !fits(v) {
        Some(ChangeErrorKind::InsertNonTextInTextObject)
    } else {
        match resolve(objs, p.drop_last()) {
            None => Some(ChangeErrorKind::NoSuchPath),
            Some(parent) => match p.last() {
                PathElement::Key(_) => if is_map_target(parent) {
                    None
                } else {
                    Some(ChangeErrorKind::NoSuchPath)
                },
                PathElement::Index(i) => if is_list_target(parent) {
                    if i >= seq_len(objs, parent) {
                        Some(ChangeErrorKind::MissingIndex)
                    } else {
                        None
                    }
                } else if is_text_target(parent) {
                    if !is_grapheme_value(v) {
                        Some(ChangeErrorKind::InsertNonTextInTextObject)
                    } else if i >= seq_len(objs, parent) {
                        Some(ChangeErrorKind::MissingIndex)
                    } else {
                        None
                    }
                } else {
                    Some(ChangeErrorKind::InsertWithNonSequencePath)
                },
            },
        }
    }
}

/// Why `Delete` at `p` would be refused.
pub open spec fn delete_error(objs: Seq<crate::state_tree::StateObject>, p: Seq<PathElement>) -> Option<ChangeErrorKind> {
    if p.len() == 0 {
        Some(ChangeErrorKind::CannotDeleteRootObject)
    } else {
        match resolve(objs, p.drop_last()) {
            None => Some(ChangeErrorKind::NoSuchPath),
            Some(parent) => match p.last() {
                PathElement::Key(_) => if is_map_target(parent) {
                    None
                } else {
                    Some(ChangeErrorKind::NoSuchPath)
                },
                PathElement::Index(i) => if is_list_target(parent) || is_text_target(parent) {
                    if i >= seq_len(objs, parent) {
                        Some(ChangeErrorKind::MissingIndex)
                    } else {
                        None
                    }
                } else {
                    Some(ChangeErrorKind::NoSuchPath)
                },
            },
        }
    }
}

/// Why `Increment` at `p` would be refused.
pub open spec fn increment_error(objs: Seq<crate::state_tree::StateObject>, p: Seq<PathElement>) -> Option<ChangeErrorKind> {
    if p.len() == 0 {
        Some(ChangeErrorKind::IncrementForNonCounterObject)
    } else {
        match resolve(objs, p) {
            None => Some(ChangeErrorKind::NoSuchPath),
            Some(Resolution::Counter(_)) => None,
            Some(_) => Some(ChangeErrorKind::IncrementForNonCounterObject),
        }
    }
}

/// Why inserting `vs` at `p` would be refused.
pub open spec fn insert_error(objs: Seq<crate::state_tree::StateObject>, p: Seq<PathElement>, vs: Seq<Value>) -> Option<
    ChangeErrorKind,
> {
    if p.len() == 0 {
        Some(ChangeErrorKind::NoSuchPath)
    } else if p.last() is Key {
        Some(ChangeErrorKind::InsertWithNonSequencePath)
    } else {
        let i = p.last()->Index_0;
        match resolve(objs, p.drop_last()) {
            None => Some(ChangeErrorKind::InsertForNonSequenceObject),
            Some(parent) => if is_list_target(parent) {
                if !(forall|j: int| 0 <= j < vs.len() ==> fits(#[trigger] vs[j])) {
                    Some(ChangeErrorKind::InsertNonTextInTextObject)
                } else if i > seq_len(objs, parent) {
                    Some(ChangeErrorKind::MissingIndex)
                } else {
                    None
                }
            } else if is_text_target(parent) {
                if !(forall|j: int| 0 <= j < vs.len() ==> is_grapheme_value(#[trigger] vs[j])) {
                    Some(ChangeErrorKind::InsertNonTextInTextObject)
                } else if i > seq_len(objs, parent) {
                    Some(ChangeErrorKind::MissingIndex)
                } else {
                    None
                }
            } else {
                Some(ChangeErrorKind::NoSuchPath)
            },
        }
    }
}

/// Why a local change would be refused, if it would.
pub open spec fn change_error(objs: Seq<crate::state_tree::StateObject>, c: LocalChange) -> Option<ChangeErrorKind> {
    match c.operation {
        LocalOperation::Assign(v) => set_error(objs, c.path@, v),
        LocalOperation::Delete => delete_error(objs, c.path@),
        LocalOperation::Increment(_) => increment_error(objs, c.path@),
        LocalOperation::Insert(v) => insert_error(objs, c.path@, seq![v]),
        LocalOperation::InsertMany(vs) => insert_error(objs, c.path@, vs@),
    }
}

/// A bound on the op ids a change takes.
pub open spec fn ops_needed(c: LocalChange) -> nat {
    match c.operation {
        LocalOperation::Assign(v) => v.op_count(),
        LocalOperation::Delete => 1,
        LocalOperation::Increment(_) => 1,
        LocalOperation::Insert(v) => v.op_count(),
        LocalOperation::InsertMany(vs) => items_op_count(vs@),
    }
}

/// `new_ops` is `old_ops` with ops appended, and `new_max` is `old_max`
/// moved past every op id they stand for.
pub open spec fn appended(old_ops: Seq<Op>, new_ops: Seq<Op>, old_max: u64, new_max: u64) -> bool {
    &&& new_ops.len() >= old_ops.len()
    &&& new_ops.subrange(0, old_ops.len() as int) == old_ops
    &&& new_max == old_max + ops_width(new_ops.skip(old_ops.len() as int))
}

/// The context in which the changes of one session are applied: each change
/// updates the state tree at once and adds its ops to the session's ops.
pub struct MutationTracker {
    pub state: StateTree,
    pub ops: Vec<Op>,
    pub max_op: u64,
    pub actor_id: ActorId,
}

pub proof fn lemma_width_concat(a: Seq<Op>, b: Seq<Op>)
    ensures
        ops_width(a + b) == ops_width(a) + ops_width(b),
    decreases b.len(),
{
    if b.len() > 0 {
        assert((a + b).drop_last() =~= a + b.drop_last());
        lemma_width_concat(a, b.drop_last());
    } else {
        assert(a + b =~= a);
    }
}

impl MutationTracker {
    pub fn new(state: StateTree, max_op: u64, actor_id: ActorId) -> (r: MutationTracker)
        ensures
            r.state == state,
            r.ops@.len() == 0,
            r.max_op == max_op,
            r.actor_id == actor_id,
    {
        MutationTracker { state, ops: Vec::new(), max_op, actor_id }
    }

    /// The ops of the session.
    pub fn ops(self) -> (r: Vec<Op>)
        ensures
            r@ == self.ops@,
    {
        self.ops
    }

    /// The state tree after the session.
    pub fn into_state(self) -> (r: StateTree)
        ensures
            r == self.state,
    {
        self.state
    }

    fn apply_state_change(&mut self, change: LocalOperationResult)
        requires
            old(self).max_op + ops_width(change.new_ops@) <= u64::MAX,
            positive_widths(change.new_ops@),
        ensures
            positive_widths(old(self).ops@) ==> positive_widths(final(self).ops@),
            final(self).ops@ == old(self).ops@ + change.new_ops@,
            final(self).max_op == old(self).max_op + ops_width(change.new_ops@),
            final(self).state == old(self).state,
            final(self).actor_id == old(self).actor_id,
    {
        let w = width_of(&change.new_ops);
        let ghost before = self.ops@;
        let mut new_ops = change.new_ops;
        let ghost added = new_ops@;
        self.ops.append(&mut new_ops);
        self.max_op = self.max_op + w;
        assert forall|t: int| positive_widths(before) && 0 <= t < self.ops@.len() implies op_width(
            #[trigger] self.ops@[t],
        ) >= 1 by {
            if t < before.len() {
                assert(self.ops@[t] == before[t]);
            } else {
                assert(self.ops@[t] == added[t - before.len()]);
            }
        }
    }
}

pub proof fn lemma_width_prefix(ops: Seq<Op>, k: int)
    requires
        0 <= k < ops.len(),
    ensures
        ops_width(ops.take(k + 1)) == ops_width(ops.take(k)) + op_width(ops[k]),
        ops_width(ops.take(k + 1)) <= ops_width(ops),
    decreases ops.len() - k,
{
    assert(ops.take(k + 1).drop_last() =~= ops.take(k));
    if k + 1 < ops.len() {
        lemma_width_prefix(ops, k + 1);
    } else {
        assert(ops.take(k + 1) =~= ops);
    }
}

/// How many op ids `ops` stand for.
pub fn width_of(ops: &Vec<Op>) -> (r: u64)
    requires
        ops_width(ops@) <= u64::MAX,
    ensures
        r == ops_width(ops@),
{
    let mut acc: u64 = 0;
    let mut i: usize = 0;
    assert(ops@.take(0) =~= Seq::<Op>::empty());
    while i < ops.len()
        invariant
            i <= ops@.len(),
            ops_width(ops@) <= u64::MAX,
            acc == ops_width(ops@.take(i as int)),
        decreases ops@.len() - i,
    {
        proof {
            lemma_width_prefix(ops@, i as int);
        }
        let w: u64 = match &ops[i].action {
            crate::protocol::OpType::MultiSet(vs) => vs.len() as u64,
            _ => 1,
        };
        acc = acc + w;
        i = i + 1;
    }
    assert(ops@.take(i as int) =~= ops@);
    acc
}

/// The ops a session has emitted since it held `before`.
pub open spec fn new_ops(before: MutationTracker, after: MutationTracker) -> Seq<Op> {
    after.ops@.skip(before.ops@.len() as int)
}

/// The counter of the first op of the next change.
pub open spec fn next_start(t: MutationTracker) -> u64 {
    (t.max_op + 1) as u64
}

/// The position of the object a resolution names as a container.
pub open spec fn container_index(objs: Seq<crate::state_tree::StateObject>, r: Resolution) -> int {
    object_index(objs, crate::state_tree::container_of(r)->Some_0)
}

/// The state and ops of an accepted `Set(v)` at a non-empty path `p`.
pub open spec fn set_effect(
    old: Seq<crate::state_tree::StateObject>,
    new: Seq<crate::state_tree::StateObject>,
    p: Seq<PathElement>,
    v: Value,
    start: u64,
    actor: ActorId,
    ops: Seq<Op>,
) -> bool {
    let parent = resolve(old, p.drop_last())->Some_0;
    let i = container_index(old, parent);
    match p.last() {
        PathElement::Key(k) => crate::resolved_path::map_set_effect(old, new, i, k, v, start, actor, ops),
        PathElement::Index(n) => if is_list_target(parent) {
            crate::resolved_path::list_set_effect(old, new, i, n as int, v, start, actor, ops)
        } else {
            crate::resolved_path::text_set_effect(old, new, i, n as int, v->Primitive_0->Str_0, start, actor, ops)
        },
    }
}

/// The state and ops of an accepted `Delete` at `p`.
pub open spec fn delete_effect(
    old: Seq<crate::state_tree::StateObject>,
    new: Seq<crate::state_tree::StateObject>,
    p: Seq<PathElement>,
    ops: Seq<Op>,
) -> bool {
    let parent = resolve(old, p.drop_last())->Some_0;
    let i = container_index(old, parent);
    match p.last() {
        PathElement::Key(k) => crate::resolved_path::map_delete_effect(old, new, i, k, ops),
        PathElement::Index(n) => if is_list_target(parent) {
            crate::resolved_path::list_remove_effect(old, new, i, n as int, ops)
        } else {
            crate::resolved_path::text_remove_effect(old, new, i, n as int, ops)
        },
    }
}

/// The strings of grapheme values.
pub open spec fn graphemes_of(vs: Seq<Value>) -> Seq<String> {
    vs.map_values(|v: Value| v->Primitive_0->Str_0)
}

/// The state and ops of an accepted insert of `vs` at `p`.
pub open spec fn insert_effect(
    old: Seq<crate::state_tree::StateObject>,
    new: Seq<crate::state_tree::StateObject>,
    p: Seq<PathElement>,
    vs: Seq<Value>,
    start: u64,
    actor: ActorId,
    ops: Seq<Op>,
) -> bool {
    let parent = resolve(old, p.drop_last())->Some_0;
    let i = container_index(old, parent);
    let n = p.last()->Index_0 as int;
    if is_list_target(parent) {
        crate::resolved_path::list_insert_effect(old, new, i, n, vs, start, actor, ops)
    } else {
        crate::resolved_path::text_insert_effect(old, new, i, n, graphemes_of(vs), start, actor, ops)
    }
}

/// Setting each entry of a map under the root, in order, from counter
/// `start` on, passes through `states`: the `j`-th entry's set takes
/// `states[j]` to `states[j + 1]` with the `j`-th slice of `ops`.
pub open spec fn root_steps(
    states: Seq<Seq<crate::state_tree::StateObject>>,
    entries: Seq<(String, Value)>,
    start: u64,
    actor: ActorId,
    ops: Seq<Op>,
) -> bool {
    &&& states.len() == entries.len() + 1
    &&& ops.len() == entries_op_count(entries)
    &&& forall|j: int|
        0 <= j < entries.len() ==> #[trigger] crate::resolved_path::map_set_effect(
            states[j],
            states[j + 1],
            object_index(states[j], crate::protocol::ObjectId::Root),
            entries[j].0,
            entries[j].1,
            (start + entries_op_count(entries.take(j))) as u64,
            actor,
            ops.subrange(entries_op_count(entries.take(j)) as int, entries_op_count(entries.take(j + 1)) as int),
        )
}

/// The state and ops of setting each entry of a map under the root, in
/// order, from counter `start` on.
pub open spec fn root_entries_effect(
    old: Seq<crate::state_tree::StateObject>,
    new: Seq<crate::state_tree::StateObject>,
    entries: Seq<(String, Value)>,
    start: u64,
    actor: ActorId,
    ops: Seq<Op>,
) -> bool {
    exists|states: Seq<Seq<crate::state_tree::StateObject>>|
        #[trigger] root_steps(states, entries, start, actor, ops) && states[0] == old && states.last() == new
}

/// The state and ops an accepted change leaves, from objects `old`, with its
/// first op at counter `start` by `actor`.
pub open spec fn change_effect(
    old: Seq<crate::state_tree::StateObject>,
    new: Seq<crate::state_tree::StateObject>,
    c: LocalChange,
    start: u64,
    actor: ActorId,
    ops: Seq<Op>,
) -> bool {
    let p = c.path@;
    match c.operation {
        LocalOperation::Assign(v) => if p.len() == 0 {
            v is Object && root_entries_effect(old, new, v->Object_0@, start, actor, ops)
        } else {
            set_effect(old, new, p, v, start, actor, ops)
        },
        LocalOperation::Delete => delete_effect(old, new, p, ops),
        LocalOperation::Increment(by) => crate::resolved_path::counter_effect(
            old,
            new,
            resolve(old, p)->Some_0->Counter_0,
            by,
            ops,
        ),
        LocalOperation::Insert(v) => insert_effect(old, new, p, seq![v], start, actor, ops),
        LocalOperation::InsertMany(vs) => insert_effect(old, new, p, vs@, start, actor, ops),
    }
}

/// The path an error names, if it names one.
pub open spec fn error_path(e: InvalidChangeRequest) -> Option<Seq<PathElement>> {
    match e {
        InvalidChangeRequest::NoSuchPathError { path } => Some(path@),
        InvalidChangeRequest::CannotOverwriteCounter { path } => Some(path@),
        InvalidChangeRequest::InsertForNonSequenceObject { path } => Some(path@),
        InvalidChangeRequest::InsertWithNonSequencePath { path } => Some(path@),
        InvalidChangeRequest::InsertNonTextInTextObject { path, .. } => Some(path@),
        InvalidChangeRequest::IncrementForNonCounterObject { path } => Some(path@),
        _ => None,
    }
}

/// An error about a change at `p` names `p`, and a missing index is the one
/// `p` ends with.
pub open spec fn names_path(e: InvalidChangeRequest, p: Seq<PathElement>) -> bool {
    &&& error_path(e) is Some ==> error_path(e)->Some_0 == p
    &&& e is MissingIndexError ==> p.len() > 0 && p.last() is Index && e->MissingIndexError_index
        == p.last()->Index_0 as u64
}

/// An error about setting a map under the root names the path of the entry
/// refused.
pub open spec fn names_root_entry(e: InvalidChangeRequest, entries: Seq<(String, Value)>) -> bool {
    error_path(e) is Some && !(e is CannotSetNonMapObjectAsRoot) ==> exists|j: int|
        0 <= j < entries.len() && error_path(e)->Some_0 == seq![PathElement::Key(#[trigger] entries[j].0)]
}

/// The error of a refused change names what it refuses.
pub open spec fn error_names(e: InvalidChangeRequest, c: LocalChange) -> bool {
    if c.path@.len() == 0 && c.operation is Assign {
        c.operation->Assign_0 is Object ==> names_root_entry(e, c.operation->Assign_0->Object_0@)
    } else {
        names_path(e, c.path@)
    }
}

/// What a change did to the tracker: refused with the given kind and
/// nothing changed, or accepted with its ops appended and `max_op` moved past
/// them.
pub open spec fn change_outcome(
    old: MutationTracker,
    new: MutationTracker,
    err: Option<ChangeErrorKind>,
    r: Result<(), InvalidChangeRequest>,
) -> bool {
    &&& new.state.wf()
    &&& new.actor_id == old.actor_id
    &&& (r is Err) == (err is Some)
    &&& r is Err ==> error_kind(r->Err_0) == err->Some_0 && new.state.objects@ == old.state.objects@ && new.ops@
        == old.ops@ && new.max_op == old.max_op
    &&& r is Ok ==> appended(old.ops@, new.ops@, old.max_op, new.max_op)
    &&& positive_widths(old.ops@) ==> positive_widths(new.ops@)
}

pub proof fn lemma_appended_trans(a: Seq<Op>, b: Seq<Op>, c: Seq<Op>, m0: u64, m1: u64, m2: u64)
    requires
        appended(a, b, m0, m1),
        appended(b, c, m1, m2),
    ensures
        appended(a, c, m0, m2),
{
    assert(c.subrange(0, a.len() as int) =~= b.subrange(0, a.len() as int));
    assert(c.skip(a.len() as int) =~= b.skip(a.len() as int) + c.skip(b.len() as int));
    lemma_width_concat(b.skip(a.len() as int), c.skip(b.len() as int));
}

pub proof fn lemma_appended_one(a: Seq<Op>, n: Seq<Op>, m0: u64, m1: u64)
    requires
        m1 == m0 + ops_width(n),
    ensures
        appended(a, a + n, m0, m1),
{
    assert((a + n).subrange(0, a.len() as int) =~= a);
    assert((a + n).skip(a.len() as int) =~= n);
}

pub proof fn lemma_root_entries_ok(objs: Seq<crate::state_tree::StateObject>, entries: Seq<(String, Value)>, t: int)
    requires
        root_entries_error(objs, entries) is None,
        0 <= t < entries.len(),
    ensures
        root_entry_error(objs, entries[t]) is None,
    decreases entries.len(),
{
    if t < entries.len() - 1 {
        lemma_root_entries_ok(objs, entries.drop_last(), t);
    }
}

pub proof fn lemma_counter_register(objs: Seq<crate::state_tree::StateObject>, p: Seq<PathElement>)
    requires
        resolve(objs, p) is Some,
        resolve(objs, p)->Some_0 is Counter,
    ensures
        register_at(objs, resolve(objs, p)->Some_0->Counter_0) is Some,
{
    crate::state_tree::lemma_object_index(objs, resolve(objs, p)->Some_0->Counter_0.container);
}

pub proof fn lemma_items_primitive(vs: Seq<Value>)
    requires
        forall|j: int| 0 <= j < vs.len() ==> (#[trigger] vs[j]) is Primitive,
    ensures
        items_op_count(vs) == vs.len(),
    decreases vs.len(),
{
    if vs.len() > 0 {
        assert forall|j: int| 0 <= j < vs.len() - 1 implies (#[trigger] vs.drop_last()[j]) is Primitive by {
            assert(vs.drop_last()[j] == vs[j]);
        }
        lemma_items_primitive(vs.drop_last());
        assert(vs.last() is Primitive);
        assert(vs.last().op_count() == 1);
    }
}

pub proof fn lemma_items_single(v: Value)
    ensures
        items_op_count(seq![v]) == v.op_count(),
{
    assert(seq![v].drop_last() =~= Seq::<Value>::empty());
    assert(items_op_count(Seq::<Value>::empty()) == 0);
    assert(seq![v].last() == v);
}

/// Once an entry of a map given for the root is refused, the first refusal
/// stays the same.
pub proof fn lemma_root_entries_stop(objs: Seq<crate::state_tree::StateObject>, s: Seq<(String, Value)>, k: int)
    requires
        0 < k <= s.len(),
        root_entries_error(objs, s.take(k)) is Some,
    ensures
        root_entries_error(objs, s) == root_entries_error(objs, s.take(k)),
    decreases s.len() - k,
{
    if k < s.len() {
        assert(s.take(k + 1).drop_last() =~= s.take(k));
        lemma_root_entries_stop(objs, s, k + 1);
    } else {
        assert(s.take(k) =~= s);
    }
}

impl MutationTracker {
    /// Applies one local change: on success its ops are appended and the
    /// state tree updated; on refusal nothing changes.
    pub fn add_change(&mut self, change: LocalChange) -> (r: Result<(), InvalidChangeRequest>)
        requires
            old(self).state.wf(),
            old(self).max_op + ops_needed(change) < u64::MAX,
        ensures
            change_outcome(*old(self), *final(self), change_error(old(self).state.objects@, change), r),
            r is Err ==> error_names(r->Err_0, change),
            r is Ok ==> change_effect(
                old(self).state.objects@,
                final(self).state.objects@,
                change,
                next_start(*old(self)),
                old(self).actor_id,
                new_ops(*old(self), *final(self)),
            ),
    {
        let LocalChange { path, operation } = change;
        match operation {
            LocalOperation::Assign(v) => {
                if path.elements.len() == 0 {
                    self.wrap_root_assignment(v)
                } else {
                    self.set_at(path, v)
                }
            },
            LocalOperation::Delete => self.delete_at(path),
            LocalOperation::Increment(by) => self.increment_at(path, by),
            LocalOperation::Insert(v) => {
                proof {
                    lemma_items_single(v);
                }
                let mut vs: Vec<Value> = Vec::new();
                vs.push(v);
                assert(vs@ =~= seq![v]);
                self.insert_helper(path, vs)
            },
            LocalOperation::InsertMany(vs) => self.insert_helper(path, vs),
        }
    }

    /// Sets every entry of a map given for the root under the root; all are
    /// checked before any is set.
    fn wrap_root_assignment(&mut self, value: Value) -> (r: Result<(), InvalidChangeRequest>)
        requires
            old(self).state.wf(),
            old(self).max_op + value.op_count() < u64::MAX,
        ensures
            change_outcome(*old(self), *final(self), set_error(old(self).state.objects@, Seq::empty(), value), r),
            r is Err && value is Object ==> names_root_entry(r->Err_0, value->Object_0@),
            r is Ok ==> value is Object && root_entries_effect(
                old(self).state.objects@,
                final(self).state.objects@,
                value->Object_0@,
                next_start(*old(self)),
                old(self).actor_id,
                new_ops(*old(self), *final(self)),
            ),
    {
        let ghost objs = self.state.objects@;
        match value {
            Value::Object(entries, MapType::Plain) => {
                let ghost orig = entries@;
                assert(set_error(objs, Seq::empty(), value) == root_entries_error(objs, orig));
                let mut entries = entries;
                let mut j: usize = 0;
                assert(orig.take(0) =~= Seq::<(String, Value)>::empty());
                while j < entries.len()
                    invariant
                        entries@ == orig,
                        objs == self.state.objects@,
                        objs == old(self).state.objects@,
                        self.ops@ == old(self).ops@,
                        self.max_op == old(self).max_op,
                        self.actor_id == old(self).actor_id,
                        set_error(objs, Seq::empty(), value) == root_entries_error(objs, orig),
                        value is Object && value->Object_0@ == orig,
                        self.state.wf(),
                        j <= orig.len(),
                        root_entries_error(objs, orig.take(j as int)) is None,
                    decreases orig.len() - j,
                {
                    proof {
                        assert(orig.take(j + 1).drop_last() =~= orig.take(j as int));
                    }
                    let key_path = Path::root().key(entries[j].0.clone());
                    assert(key_path@ =~= seq![PathElement::Key(orig[j as int].0)]);
                    assert(key_path@ == seq![PathElement::Key(value->Object_0@[j as int].0)]);
                    let is_counter = match self.state.resolve_path(&key_path) {
                        Some(rp) => match rp.target {
                            crate::resolved_path::Target::Counter(_) => true,
                            _ => false,
                        },
                        None => false,
                    };
                    if is_counter {
                        proof {
                            lemma_root_entries_stop(objs, orig, j + 1);
                        }
                        return Err(InvalidChangeRequest::CannotOverwriteCounter { path: key_path });
                    }
                    if !entries[j].1.check_fits() {
                        proof {
                            lemma_root_entries_stop(objs, orig, j + 1);
                        }
                        let bad = entries.remove(j);
                        return Err(InvalidChangeRequest::InsertNonTextInTextObject { path: key_path, object: bad.1 });
                    }
                    j = j + 1;
                }
                assert(orig.take(j as int) =~= orig);
                let ghost t0 = *self;
                let mut k: usize = 0;
                let n = entries.len();
                assert(orig.take(0) =~= Seq::<(String, Value)>::empty());
                proof {
                    assert(self.ops@.subrange(0, self.ops@.len() as int) =~= self.ops@);
                    assert(self.ops@.skip(self.ops@.len() as int) =~= Seq::<Op>::empty());
                }
                let ghost mut states: Seq<Seq<crate::state_tree::StateObject>> = seq![objs];
                proof {
                    assert(root_steps(
                        states,
                        orig.take(0),
                        (t0.max_op + 1) as u64,
                        t0.actor_id,
                        self.ops@.skip(t0.ops@.len() as int),
                    ));
                }
                while entries.len() > 0
                    invariant
                        n == orig.len(),
                        k + entries@.len() == n,
                        entries@ == orig.skip(k as int),
                        self.state.wf(),
                        self.actor_id == t0.actor_id,
                        root_entries_error(objs, orig) is None,
                        t0.max_op + 1 + entries_op_count(orig) < u64::MAX,
                        self.max_op == t0.max_op + entries_op_count(orig.take(k as int)),
                        appended(t0.ops@, self.ops@, t0.max_op, self.max_op),
                        positive_widths(t0.ops@) ==> positive_widths(self.ops@),
                        objs == t0.state.objects@,
                        value is Object && value->Object_0@ == orig,
                        root_steps(
                            states,
                            orig.take(k as int),
                            (t0.max_op + 1) as u64,
                            t0.actor_id,
                            self.ops@.skip(t0.ops@.len() as int),
                        ),
                        states[0] == objs,
                        states.last() == self.state.objects@,
                    decreases entries@.len(),
                {
                    let (key, v) = entries.remove(0);
                    proof {
                        assert(entries@ =~= orig.skip(k + 1));
                        assert((key, v) == orig[k as int]);
                        lemma_root_entries_ok(objs, orig, k as int);
                        crate::new_value::lemma_entries_prefix(orig, k as int);
                    }
                    let root = crate::resolved_path::ResolvedRootMut {};
                    let payload = SetOrInsertPayload { start_op: self.max_op + 1, actor: self.actor_id.copy(), value: v };
                    let ghost before = *self;
                    let res = root.set_key(&mut self.state, &key, payload);
                    self.apply_state_change(res);
                    proof {
                        lemma_appended_one(before.ops@, res.new_ops@, before.max_op, self.max_op);
                        lemma_appended_trans(t0.ops@, before.ops@, self.ops@, t0.max_op, before.max_op, self.max_op);
                        let l0 = t0.ops@.len() as int;
                        let all = self.ops@.skip(l0);
                        let prev = before.ops@.skip(l0);
                        assert(all.subrange(0, prev.len() as int) =~= prev);
                        assert(all.skip(prev.len() as int) =~= res.new_ops@);
                        let tk = orig.take(k + 1);
                        let st2 = states.push(self.state.objects@);
                        assert forall|j: int| 0 <= j < tk.len() implies #[trigger] crate::resolved_path::map_set_effect(
                            st2[j],
                            st2[j + 1],
                            object_index(st2[j], ObjectId::Root),
                            tk[j].0,
                            tk[j].1,
                            ((t0.max_op + 1) as u64 + entries_op_count(tk.take(j))) as u64,
                            t0.actor_id,
                            all.subrange(entries_op_count(tk.take(j)) as int, entries_op_count(tk.take(j + 1)) as int),
                        ) by {
                            if j < k {
                                assert(tk.take(j) =~= orig.take(k as int).take(j));
                                assert(tk.take(j + 1) =~= orig.take(k as int).take(j + 1));
                                assert(tk[j] == orig.take(k as int)[j]);
                                crate::new_value::lemma_entries_prefix(orig.take(k as int), j);
                                assert(all.subrange(entries_op_count(tk.take(j)) as int, entries_op_count(tk.take(j + 1)) as int)
                                    =~= prev.subrange(entries_op_count(tk.take(j)) as int, entries_op_count(tk.take(j + 1)) as int));
                            } else {
                                assert(tk.take(j) =~= orig.take(k as int));
                                assert(tk.take(j + 1) =~= tk);
                                assert(tk[j] == (key, v));
                                assert(all.subrange(entries_op_count(tk.take(j)) as int, entries_op_count(tk.take(j + 1)) as int)
                                    =~= res.new_ops@);
                            }
                        }
                        assert(root_steps(st2, tk, (t0.max_op + 1) as u64, t0.actor_id, all));
                    }
                    proof {
                        states = states.push(self.state.objects@);
                    }
                    k = k + 1;
                }
                proof {
                    assert(orig.take(k as int) =~= orig);
                    assert(root_steps(
                        states,
                        orig,
                        (t0.max_op + 1) as u64,
                        t0.actor_id,
                        self.ops@.skip(t0.ops@.len() as int),
                    ));
                }
                Ok(())
            },
            Value::Object(entries, MapType::Table) => Err(
                InvalidChangeRequest::CannotSetNonMapObjectAsRoot { value: Value::Object(entries, MapType::Table) },
            ),
            _ => Err(InvalidChangeRequest::CannotSetNonMapObjectAsRoot { value }),
        }
    }
}

impl MutationTracker {
    /// Sets the value at a non-empty path.
    fn set_at(&mut self, path: Path, value: Value) -> (r: Result<(), InvalidChangeRequest>)
        requires
            old(self).state.wf(),
            path@.len() > 0,
            old(self).max_op + value.op_count() < u64::MAX,
        ensures
            change_outcome(*old(self), *final(self), set_error(old(self).state.objects@, path@, value), r),
            r is Err ==> names_path(r->Err_0, path@),
            r is Ok ==> set_effect(
                old(self).state.objects@,
                final(self).state.objects@,
                path@,
                value,
                next_start(*old(self)),
                old(self).actor_id,
                new_ops(*old(self), *final(self)),
            ),
    {
        let ghost objs = self.state.objects@;
        let ghost t0 = *self;
        let is_counter = match self.state.resolve_path_mut(&path) {
            Some(rp) => match rp.target {
                TargetMut::Counter(_) => true,
                _ => false,
            },
            None => false,
        };
        if is_counter {
            return Err(InvalidChangeRequest::CannotOverwriteCounter { path });
        }
        if !value.check_fits() {
            return Err(InvalidChangeRequest::InsertNonTextInTextObject { path, object: value });
        }
        let parent = path.parent();
        let pr = match self.state.resolve_path_mut(&parent) {
            Some(pr) => pr,
            None => {
                return Err(InvalidChangeRequest::NoSuchPathError { path });
            },
        };
        proof {
            crate::state_tree::lemma_resolve_linked(objs, parent@);
            crate::state_tree::lemma_object_index(objs, ObjectId::Root);
        }
        let name = path.name().unwrap().copy();
        let start = self.max_op + 1;
        let actor = self.actor_id.copy();
        match name {
            PathElement::Key(k) => {
                let res = match pr.target {
                    TargetMut::Root(root) => root.set_key(
                        &mut self.state,
                        &k,
                        SetOrInsertPayload { start_op: start, actor, value },
                    ),
                    TargetMut::Mapping(m) => m.set_key(
                        &mut self.state,
                        &k,
                        SetOrInsertPayload { start_op: start, actor, value },
                    ),
                    TargetMut::Table(t) => t.set_key(
                        &mut self.state,
                        &k,
                        SetOrInsertPayload { start_op: start, actor, value },
                    ),
                    _ => {
                        return Err(InvalidChangeRequest::NoSuchPathError { path });
                    },
                };
                self.apply_state_change(res);
                proof {
                    lemma_appended_one(t0.ops@, res.new_ops@, t0.max_op, self.max_op);
                    assert(self.ops@.skip(t0.ops@.len() as int) =~= res.new_ops@);
                }
                Ok(())
            },
            PathElement::Index(i) => {
                match pr.target {
                    TargetMut::List(l) => {
                        match l.set(&mut self.state, i, SetOrInsertPayload { start_op: start, actor, value }) {
                            Ok(res) => {
                                self.apply_state_change(res);
                                proof {
                                    lemma_appended_one(t0.ops@, res.new_ops@, t0.max_op, self.max_op);
                    assert(self.ops@.skip(t0.ops@.len() as int) =~= res.new_ops@);
                                }
                                Ok(())
                            },
                            Err(e) => Err(e),
                        }
                    },
                    TargetMut::Text(t) => {
                        match value {
                            Value::Primitive(ScalarValue::Str(g)) => {
                                if !is_single_grapheme(g.as_str()) {
                                    return Err(
                                        InvalidChangeRequest::InsertNonTextInTextObject {
                                            path,
                                            object: Value::Primitive(ScalarValue::Str(g)),
                                        },
                                    );
                                }
                                match t.set(&mut self.state, i, SetOrInsertPayload { start_op: start, actor, value: g }) {
                                    Ok(res) => {
                                        self.apply_state_change(res);
                                        proof {
                                            lemma_appended_one(t0.ops@, res.new_ops@, t0.max_op, self.max_op);
                    assert(self.ops@.skip(t0.ops@.len() as int) =~= res.new_ops@);
                                        }
                                        Ok(())
                                    },
                                    Err(e) => Err(e),
                                }
                            },
                            other => Err(InvalidChangeRequest::InsertNonTextInTextObject { path, object: other }),
                        }
                    },
                    _ => Err(InvalidChangeRequest::InsertWithNonSequencePath { path }),
                }
            },
        }
    }

    /// Deletes the entry at a path.
    fn delete_at(&mut self, path: Path) -> (r: Result<(), InvalidChangeRequest>)
        requires
            old(self).state.wf(),
            old(self).max_op + 1 < u64::MAX,
        ensures
            change_outcome(*old(self), *final(self), delete_error(old(self).state.objects@, path@), r),
            r is Err ==> names_path(r->Err_0, path@),
            r is Ok ==> delete_effect(
                old(self).state.objects@,
                final(self).state.objects@,
                path@,
                new_ops(*old(self), *final(self)),
            ),
    {
        let ghost objs = self.state.objects@;
        let ghost t0 = *self;
        if path.elements.len() == 0 {
            return Err(InvalidChangeRequest::CannotDeleteRootObject);
        }
        let parent = path.parent();
        let pr = match self.state.resolve_path_mut(&parent) {
            Some(pr) => pr,
            None => {
                return Err(InvalidChangeRequest::NoSuchPathError { path });
            },
        };
        proof {
            crate::state_tree::lemma_resolve_linked(objs, parent@);
        }
        let name = path.name().unwrap().copy();
        let res = match (name, pr.target) {
            (PathElement::Key(k), TargetMut::Root(root)) => root.delete_key(&mut self.state, &k),
            (PathElement::Key(k), TargetMut::Mapping(m)) => m.delete_key(&mut self.state, &k),
            (PathElement::Key(k), TargetMut::Table(t)) => t.delete_key(&mut self.state, &k),
            (PathElement::Index(i), TargetMut::List(l)) => match l.remove(&mut self.state, i) {
                Ok(res) => res,
                Err(e) => {
                    return Err(e);
                },
            },
            (PathElement::Index(i), TargetMut::Text(t)) => match t.remove(&mut self.state, i) {
                Ok(res) => res,
                Err(e) => {
                    return Err(e);
                },
            },
            _ => {
                return Err(InvalidChangeRequest::NoSuchPathError { path });
            },
        };
        self.apply_state_change(res);
        proof {
            lemma_appended_one(t0.ops@, res.new_ops@, t0.max_op, self.max_op);
                    assert(self.ops@.skip(t0.ops@.len() as int) =~= res.new_ops@);
        }
        Ok(())
    }

    /// Increments the counter at a path.
    fn increment_at(&mut self, path: Path, by: i64) -> (r: Result<(), InvalidChangeRequest>)
        requires
            old(self).state.wf(),
            old(self).max_op + 1 < u64::MAX,
        ensures
            change_outcome(*old(self), *final(self), increment_error(old(self).state.objects@, path@), r),
            r is Err ==> names_path(r->Err_0, path@),
            r is Ok ==> crate::resolved_path::counter_effect(
                old(self).state.objects@,
                final(self).state.objects@,
                resolve(old(self).state.objects@, path@)->Some_0->Counter_0,
                by,
                new_ops(*old(self), *final(self)),
            ),
    {
        let ghost objs = self.state.objects@;
        let ghost t0 = *self;
        if path.elements.len() == 0 {
            return Err(InvalidChangeRequest::IncrementForNonCounterObject { path });
        }
        let pr = match self.state.resolve_path_mut(&path) {
            Some(pr) => pr,
            None => {
                return Err(InvalidChangeRequest::NoSuchPathError { path });
            },
        };
        match pr.target {
            TargetMut::Counter(c) => {
                proof {
                    lemma_counter_register(objs, path@);
                }
                let res = c.increment(&mut self.state, by);
                self.apply_state_change(res);
                proof {
                    lemma_appended_one(t0.ops@, res.new_ops@, t0.max_op, self.max_op);
                    assert(self.ops@.skip(t0.ops@.len() as int) =~= res.new_ops@);
                }
                Ok(())
            },
            _ => Err(InvalidChangeRequest::IncrementForNonCounterObject { path }),
        }
    }

    /// Inserts values at the index a path ends with, in a list or a text.
    fn insert_helper(&mut self, path: Path, values: Vec<Value>) -> (r: Result<(), InvalidChangeRequest>)
        requires
            old(self).state.wf(),
            old(self).max_op + items_op_count(values@) < u64::MAX,
        ensures
            change_outcome(*old(self), *final(self), insert_error(old(self).state.objects@, path@, values@), r),
            r is Err ==> names_path(r->Err_0, path@),
            r is Ok ==> insert_effect(
                old(self).state.objects@,
                final(self).state.objects@,
                path@,
                values@,
                next_start(*old(self)),
                old(self).actor_id,
                new_ops(*old(self), *final(self)),
            ),
    {
        let ghost objs = self.state.objects@;
        let ghost t0 = *self;
        let ghost vs = values@;
        if path.elements.len() == 0 {
            return Err(InvalidChangeRequest::NoSuchPathError { path });
        }
        let index = match path.name().unwrap() {
            PathElement::Index(i) => *i,
            PathElement::Key(_) => {
                return Err(InvalidChangeRequest::InsertWithNonSequencePath { path });
            },
        };
        let parent = path.parent();
        let pr = match self.state.resolve_path_mut(&parent) {
            Some(pr) => pr,
            None => {
                return Err(InvalidChangeRequest::InsertForNonSequenceObject { path });
            },
        };
        proof {
            crate::state_tree::lemma_resolve_linked(objs, parent@);
        }
        let ghost pm = pr.target.model();
        let start = self.max_op + 1;
        let actor = self.actor_id.copy();
        match pr.target {
            TargetMut::List(l) => {
                let mut items = values;
                let mut j: usize = 0;
                while j < items.len()
                    invariant
                        items@ == vs,
                        values@ == vs,
                        j <= vs.len(),
                        self.state.wf(),
                        self.state.objects@ == old(self).state.objects@,
                        self.ops@ == old(self).ops@,
                        self.max_op == old(self).max_op,
                        self.actor_id == old(self).actor_id,
                        objs == old(self).state.objects@,
                        path@.len() > 0,
                        path@.last() == PathElement::Index(index),
                        resolve(objs, path@.drop_last()) == Some(pm),
                        is_list_target(pm),
                        forall|t: int| 0 <= t < j ==> fits(#[trigger] vs[t]),
                    decreases vs.len() - j,
                {
                    if !items[j].check_fits() {
                        assert(!fits(vs[j as int]));
                        assert(!(forall|t: int| 0 <= t < vs.len() ==> fits(#[trigger] vs[t])));
                        assert(is_list_target(pm));
                        assert(insert_error(objs, path@, vs) == Some(ChangeErrorKind::InsertNonTextInTextObject));
                        let bad = items.remove(j);
                        return Err(InvalidChangeRequest::InsertNonTextInTextObject { path, object: bad });
                    }
                    j = j + 1;
                }
                match l.insert_many(&mut self.state, index, SetOrInsertPayload { start_op: start, actor, value: items }) {
                    Ok(res) => {
                        self.apply_state_change(res);
                        proof {
                            lemma_appended_one(t0.ops@, res.new_ops@, t0.max_op, self.max_op);
                            assert(self.ops@.skip(t0.ops@.len() as int) =~= res.new_ops@);
                        }
                        Ok(())
                    },
                    Err(e) => Err(e),
                }
            },
            TargetMut::Text(t) => {
                let mut items = values;
                let mut chars: Vec<String> = Vec::new();
                let mut j: usize = 0;
                while j < items.len()
                    invariant
                        items@ == vs,
                        values@ == vs,
                        j <= vs.len(),
                        self.state.wf(),
                        self.state.objects@ == old(self).state.objects@,
                        self.ops@ == old(self).ops@,
                        self.max_op == old(self).max_op,
                        self.actor_id == old(self).actor_id,
                        objs == old(self).state.objects@,
                        path@.len() > 0,
                        path@.last() == PathElement::Index(index),
                        resolve(objs, path@.drop_last()) == Some(pm),
                        is_text_target(pm),
                        chars@ == graphemes_of(vs).take(j as int),
                        forall|u: int| 0 <= u < j ==> is_grapheme_value(#[trigger] vs[u]),
                    decreases vs.len() - j,
                {
                    let ok = match &items[j] {
                        Value::Primitive(ScalarValue::Str(g)) => {
                            if is_single_grapheme(g.as_str()) {
                                chars.push(g.clone());
                                true
                            } else {
                                false
                            }
                        },
                        _ => false,
                    };
                    if !ok {
                        assert(!is_grapheme_value(vs[j as int]));
                        assert(!(forall|t: int| 0 <= t < vs.len() ==> is_grapheme_value(#[trigger] vs[t])));
                        assert(!is_list_target(pm));
                        assert(insert_error(objs, path@, vs) == Some(ChangeErrorKind::InsertNonTextInTextObject));
                        let bad = items.remove(j);
                        return Err(InvalidChangeRequest::InsertNonTextInTextObject { path, object: bad });
                    }
                    proof {
                        assert(graphemes_of(vs).take(j + 1) =~= graphemes_of(vs).take(j as int).push(
                            vs[j as int]->Primitive_0->Str_0,
                        ));
                    }
                    j = j + 1;
                }
                proof {
                    lemma_items_primitive(vs);
                    assert(graphemes_of(vs).take(j as int) =~= graphemes_of(vs));
                }
                match t.insert_many(&mut self.state, index, SetOrInsertPayload { start_op: start, actor, value: chars }) {
                    Ok(res) => {
                        self.apply_state_change(res);
                        proof {
                            lemma_appended_one(t0.ops@, res.new_ops@, t0.max_op, self.max_op);
                            assert(self.ops@.skip(t0.ops@.len() as int) =~= res.new_ops@);
                        }
                        Ok(())
                    },
                    Err(e) => Err(e),
                }
            },
            _ => Err(InvalidChangeRequest::NoSuchPathError { path }),
        }
    }
}

/// What a character resolution names is in the tree.
pub proof fn lemma_char_slot(objs: Seq<crate::state_tree::StateObject>, p: Seq<PathElement>)
    requires
        resolve(objs, p) is Some,
        resolve(objs, p)->Some_0 is Character,
    ensures
        crate::resolved_path::char_slot_ok(objs, resolve(objs, p)->Some_0->Character_0),
{
    crate::state_tree::lemma_object_index(objs, resolve(objs, p)->Some_0->Character_0.container);
}

impl MutationTracker {
    /// The current value at `path`, if it resolves.
    pub fn value_at_path(&self, path: &Path) -> (r: Option<Value>)
        requires
            self.state.wf(),
        ensures
            value_view(self.state.objects@, path@, r),
    {
        match self.state.resolve_path_mut(path) {
            Some(rp) => {
                proof {
                    if rp.target is Character {
                        lemma_char_slot(self.state.objects@, path@);
                    }
                }
                Some(rp.default_value(&self.state))
            },
            None => None,
        }
    }

    /// A cursor at the element `path` names in a list or a text, if any.
    pub fn cursor_to_path(&self, path: &Path) -> (r: Option<Cursor>)
        requires
            self.state.wf(),
        ensures
            r == cursor_view(self.state.objects@, path@),
    {
        let index = match path.name() {
            Some(PathElement::Index(i)) => *i,
            _ => {
                return None;
            },
        };
        let parent = path.parent();
        let pr = match self.state.resolve_path_mut(&parent) {
            Some(pr) => pr,
            None => {
                return None;
            },
        };
        proof {
            crate::state_tree::lemma_resolve_linked(self.state.objects@, parent@);
        }
        match pr.target {
            TargetMut::List(l) => match l.get_cursor(&self.state, index) {
                Ok(c) => Some(c),
                Err(_) => None,
            },
            TargetMut::Text(t) => match t.get_cursor(&self.state, index) {
                Ok(c) => Some(c),
                Err(_) => None,
            },
            _ => None,
        }
    }
}

/// Setting an existing character of a text object is accepted exactly when
/// the value is a string of one extended grapheme cluster.
pub proof fn lemma_text_set_needs_one_grapheme(
    objs: Seq<crate::state_tree::StateObject>,
    p: Seq<PathElement>,
    v: Value,
)
    requires
        p.len() > 0,
        p.last() is Index,
        resolve(objs, p.drop_last()) is Some,
        is_text_target(resolve(objs, p.drop_last())->Some_0),
        p.last()->Index_0 < seq_len(objs, resolve(objs, p.drop_last())->Some_0),
    ensures
        set_error(objs, p, v) is None <==> is_grapheme_value(v),
{
    let parent = resolve(objs, p.drop_last())->Some_0;
    crate::state_tree::lemma_resolve_linked(objs, p.drop_last());
    assert(resolve(objs, p) == crate::state_tree::child_resolution(objs, parent, p.last()));
}

/// Inserting into a text object at an index within its length is accepted
/// exactly when every value is a string of one extended grapheme cluster.
pub proof fn lemma_text_insert_needs_graphemes(
    objs: Seq<crate::state_tree::StateObject>,
    p: Seq<PathElement>,
    vs: Seq<Value>,
)
    requires
        p.len() > 0,
        p.last() is Index,
        resolve(objs, p.drop_last()) is Some,
        is_text_target(resolve(objs, p.drop_last())->Some_0),
        p.last()->Index_0 <= seq_len(objs, resolve(objs, p.drop_last())->Some_0),
    ensures
        insert_error(objs, p, vs) is None <==> forall|j: int| 0 <= j < vs.len() ==> is_grapheme_value(#[trigger] vs[j]),
{
}

/// The implicit counter of the op at position `t` of a session whose ops
/// start after `start_max`: the last op id the op stands for.
pub open spec fn op_counter(start_max: u64, ops: Seq<Op>, t: int) -> int {
    start_max + ops_width(ops.take(t + 1))
}

/// Within one session, each op's counter is above the counter of the op
/// before it, and the last op's counter is the session's closing `max_op`.
pub proof fn lemma_session_counters(start_max: u64, ops: Seq<Op>, max_op: u64)
    requires
        appended(Seq::empty(), ops, start_max, max_op),
        positive_widths(ops),
    ensures
        forall|t: int| 0 < t < ops.len() ==> op_counter(start_max, ops, t - 1) < #[trigger] op_counter(start_max, ops, t),
        ops.len() > 0 ==> op_counter(start_max, ops, ops.len() - 1) == max_op,
{
    assert forall|t: int| 0 < t < ops.len() implies op_counter(start_max, ops, t - 1) < #[trigger] op_counter(
        start_max,
        ops,
        t,
    ) by {
        lemma_width_prefix(ops, t);
    }
    if ops.len() > 0 {
        assert(ops.take(ops.len() as int) =~= ops);
        assert(ops.skip(0) =~= ops);
    }
}

/// A session's ops and closing `max_op`, from a fresh tracker through any
/// number of accepted changes, stay in that relation.
pub proof fn lemma_session_step(
    start_max: u64,
    before: MutationTracker,
    after: MutationTracker,
    err: Option<ChangeErrorKind>,
    r: Result<(), InvalidChangeRequest>,
)
    requires
        appended(Seq::empty(), before.ops@, start_max, before.max_op),
        change_outcome(before, after, err, r),
    ensures
        appended(Seq::empty(), after.ops@, start_max, after.max_op),
{
    if r is Ok {
        lemma_appended_trans(Seq::empty(), before.ops@, after.ops@, start_max, before.max_op, after.max_op);
    }
}

/// The cursor at the element path `p` names in a list or a text, if any.
pub open spec fn cursor_view(objs: Seq<crate::state_tree::StateObject>, p: Seq<PathElement>) -> Option<Cursor> {
                
                let parent = resolve(objs, p.drop_last());
                if p.len() > 0 && p.last() is Index && parent is Some && (is_list_target(parent->Some_0)
                    || is_text_target(parent->Some_0)) && p.last()->Index_0 < seq_len(objs, parent->Some_0) {
                    let o = parent->Some_0->Composite_1;
                    let i = object_index(objs, o);
                    let n = p.last()->Index_0;
                    let elem = if is_list_target(parent->Some_0) {
                        list_at(objs, i)[n as int].0
                    } else {
                        text_at(objs, i)[n as int].0
                    };
                    Some(Cursor { index: n, object: o, elem_id: crate::protocol::ElementId::Id(elem) })
                } else {
                    None
                }
}

/// What reading the value at `p` gives.
pub open spec fn value_view(objs: Seq<crate::state_tree::StateObject>, p: Seq<PathElement>, r: Option<Value>) -> bool {
    match resolve(objs, p) {
        Some(res) => r is Some && r->Some_0.model() == crate::resolved_path::target_view(objs, res),
        None => r is None,
    }
}

/// A document that local changes can be made to and read from.
pub trait MutableDocument: Sized {
    /// The document can be read.
    spec fn readable(&self) -> bool;

    /// The document can take `change`.
    spec fn accepts(&self, change: LocalChange) -> bool;

    /// `r` is what reading the value at `path` gives.
    spec fn reads_value(&self, path: Path, r: Option<Value>) -> bool;

    /// `r` is the cursor at the element `path` names.
    spec fn reads_cursor(&self, path: Path, r: Option<Cursor>) -> bool;

    /// `after`, with result `r`, is the document after `change`.
    spec fn changed(&self, after: Self, change: LocalChange, r: Result<(), InvalidChangeRequest>) -> bool;

    fn value_at_path(&mut self, path: &Path) -> (r: Option<Value>)
        requires
            old(self).readable(),
        ensures
            *final(self) == *old(self),
            old(self).reads_value(*path, r),
    ;

    fn cursor_to_path(&mut self, path: &Path) -> (r: Option<Cursor>)
        requires
            old(self).readable(),
        ensures
            *final(self) == *old(self),
            old(self).reads_cursor(*path, r),
    ;

    fn add_change(&mut self, change: LocalChange) -> (r: Result<(), InvalidChangeRequest>)
        requires
            old(self).accepts(change),
        ensures
            old(self).changed(*final(self), change, r),
    ;
}

impl MutableDocument for MutationTracker {
    open spec fn readable(&self) -> bool {
        self.state.wf()
    }

    open spec fn accepts(&self, change: LocalChange) -> bool {
        self.state.wf() && self.max_op + ops_needed(change) < u64::MAX
    }

    open spec fn reads_value(&self, path: Path, r: Option<Value>) -> bool {
        value_view(self.state.objects@, path@, r)
    }

    open spec fn reads_cursor(&self, path: Path, r: Option<Cursor>) -> bool {
        r == cursor_view(self.state.objects@, path@)
    }

    open spec fn changed(&self, after: MutationTracker, change: LocalChange, r: Result<(), InvalidChangeRequest>) -> bool {
        &&& change_outcome(*self, after, change_error(self.state.objects@, change), r)
        &&& r is Ok ==> change_effect(
            self.state.objects@,
            after.state.objects@,
            change,
            next_start(*self),
            self.actor_id,
            new_ops(*self, after),
        )
    }

    fn value_at_path(&mut self, path: &Path) -> (r: Option<Value>) {
        MutationTracker::value_at_path(self, path)
    }

    fn cursor_to_path(&mut self, path: &Path) -> (r: Option<Cursor>) {
        MutationTracker::cursor_to_path(self, path)
    }

    fn add_change(&mut self, change: LocalChange) -> (r: Result<(), InvalidChangeRequest>) {
        MutationTracker::add_change(self, change)
    }
}

} // verus!
