//! Identifiers, scalar values, ops and patch edits exchanged with the backend.

use vstd::prelude::*;

verus! {

/// An opaque, totally ordered actor identifier.
pub struct ActorId {
    pub label: String,
}

/// Lexicographic order on character sequences.
pub open spec fn chars_lt(a: Seq<char>, b: Seq<char>) -> bool
    decreases a.len(),
{
    if b.len() == 0 {
        false
    } else if a.len() == 0 {
        true
    } else if a[0] != b[0] {
        (a[0] as u32) < (b[0] as u32)
    } else {
        chars_lt(a.drop_first(), b.drop_first())
    }
}

/// An operation identifier: Lamport-ordered by `(counter, actor)`.
pub struct OpId {
    pub counter: u64,
    pub actor: ActorId,
}

/// Two op ids name the same operation.
pub open spec fn opid_eq(a: OpId, b: OpId) -> bool {
    a.counter == b.counter && a.actor.label@ == b.actor.label@
}

pub open spec fn objid_eq(a: ObjectId, b: ObjectId) -> bool {
    match (a, b) {
        (ObjectId::Root, ObjectId::Root) => true,
        (ObjectId::Id(x), ObjectId::Id(y)) => opid_eq(x, y),
        _ => false,
    }
}

pub open spec fn opid_lt(a: OpId, b: OpId) -> bool {
    a.counter < b.counter || (a.counter == b.counter && chars_lt(a.actor.label@, b.actor.label@))
}

pub enum ObjectId {
    Root,
    Id(OpId),
}

pub enum ElementId {
    Head,
    Id(OpId),
}

pub enum Key {
    Prop(String),
    Elem(ElementId),
}

#[derive(PartialEq, Eq, Structural, Clone, Copy, Debug)]
pub enum MapType {
    Plain,
    Table,
}

#[derive(PartialEq, Eq, Structural, Clone, Copy, Debug)]
pub enum SeqType {
    List,
    Text,
}

#[derive(PartialEq, Eq, Structural, Clone, Copy, Debug)]
pub enum ObjType {
    MapLike(MapType),
    Sequence(SeqType),
}

pub struct Cursor {
    pub index: u32,
    pub object: ObjectId,
    pub elem_id: ElementId,
}

pub enum ScalarValue {
    Str(String),
    Int(i64),
    Uint(u64),
    Boolean(bool),
    Null,
    Counter(i64),
    Timestamp(i64),
    Cursor(Cursor),
}

pub enum OpType {
    Make(ObjType),
    Del(u32),
    Inc(i64),
    SetScalar(ScalarValue),
    MultiSet(Vec<ScalarValue>),
}

/// An outgoing operation.
pub struct Op {
    pub action: OpType,
    pub obj: ObjectId,
    pub key: Key,
    pub insert: bool,
    pub pred: Vec<OpId>,
}

/// What a patch says of one value: a scalar, or a link to an object.
pub enum Diff {
    Value(ScalarValue),
    Object(ObjType, ObjectId),
}

pub enum DiffEdit {
    Remove { index: u64, count: u64 },
    SingleElementInsert { index: u64, elem_id: ElementId, op_id: OpId, value: Diff },
    MultiElementInsert { index: u64, elem_id: ElementId, values: Vec<ScalarValue> },
    Update { index: u64, op_id: OpId, value: Diff },
}

pub enum InvalidPatch {
    InvalidIndex { object_id: ObjectId, index: u64 },
    MismatchedType,
    InvalidElementId,
    UnknownObject { object_id: ObjectId },
}

impl ActorId {
    pub fn new(label: String) -> (r: ActorId)
        ensures
            r.label == label,
    {
        ActorId { label }
    }

    pub fn copy(&self) -> (r: ActorId)
        ensures
            r == *self,
    {
        ActorId { label: self.label.clone() }
    }

    /// Whether `self` orders strictly before `other`.
    pub fn less_than(&self, other: &ActorId) -> (r: bool)
        ensures
            r == chars_lt(self.label@, other.label@),
    {
        let a = self.label.as_str();
        let b = other.label.as_str();
        let la = a.unicode_len();
        let lb = b.unicode_len();
        let mut i: usize = 0;
        assert(a@.skip(0) =~= a@);
        assert(b@.skip(0) =~= b@);
        while i < la && i < lb
            invariant
                la == a@.len(),
                lb == b@.len(),
                i <= la,
                i <= lb,
                a@ == self.label@,
                b@ == other.label@,
                forall|j: int| 0 <= j < i ==> a@[j] == b@[j],
                chars_lt(a@, b@) == chars_lt(a@.skip(i as int), b@.skip(i as int)),
            decreases la - i,
        {
            let ca = a.get_char(i);
            let cb = b.get_char(i);
            if ca != cb {
                assert(a@.skip(i as int)[0] == ca);
                assert(b@.skip(i as int)[0] == cb);
                return (ca as u32) < (cb as u32);
            }
            assert(a@.skip(i as int).drop_first() =~= a@.skip(i + 1));
            assert(b@.skip(i as int).drop_first() =~= b@.skip(i + 1));
            i = i + 1;
        }
        proof {
            if i == lb {
                assert(b@.skip(i as int).len() == 0);
            } else {
                assert(a@.skip(i as int).len() == 0);
            }
        }
        i < lb
    }
}

impl OpId {
    pub fn new(counter: u64, actor: &ActorId) -> (r: OpId)
        ensures
            r.counter == counter,
            r.actor == *actor,
    {
        OpId { counter, actor: actor.copy() }
    }

    pub fn copy(&self) -> (r: OpId)
        ensures
            r == *self,
    {
        OpId { counter: self.counter, actor: self.actor.copy() }
    }

    pub fn same(&self, other: &OpId) -> (r: bool)
        ensures
            r == opid_eq(*self, *other),
    {
        self.counter == other.counter && self.actor.label == other.actor.label
    }

    /// Lamport order: counter first, then actor.
    pub fn less_than(&self, other: &OpId) -> (r: bool)
        ensures
            r == opid_lt(*self, *other),
    {
        if self.counter != other.counter {
            self.counter < other.counter
        } else {
            self.actor.less_than(&other.actor)
        }
    }

    /// `(counter + n, actor)`.
    pub fn increment_by(&self, n: u64) -> (r: OpId)
        requires
            self.counter + n <= u64::MAX,
        ensures
            r.counter == self.counter + n,
            r.actor == self.actor,
    {
        OpId { counter: self.counter + n, actor: self.actor.copy() }
    }
}

impl ObjectId {
    pub fn copy(&self) -> (r: ObjectId)
        ensures
            r == *self,
    {
        match self {
            ObjectId::Root => ObjectId::Root,
            ObjectId::Id(o) => ObjectId::Id(o.copy()),
        }
    }

    pub fn same(&self, other: &ObjectId) -> (r: bool)
        ensures
            r == objid_eq(*self, *other),
    {
        match (self, other) {
            (ObjectId::Root, ObjectId::Root) => true,
            (ObjectId::Id(a), ObjectId::Id(b)) => a.same(b),
            _ => false,
        }
    }
}

impl ElementId {
    pub fn copy(&self) -> (r: ElementId)
        ensures
            r == *self,
    {
        match self {
            ElementId::Head => ElementId::Head,
            ElementId::Id(o) => ElementId::Id(o.copy()),
        }
    }
}

impl Key {
    pub fn copy(&self) -> (r: Key)
        ensures
            r == *self,
    {
        match self {
            Key::Prop(s) => Key::Prop(s.clone()),
            Key::Elem(e) => Key::Elem(e.copy()),
        }
    }
}

impl Cursor {
    pub fn copy(&self) -> (r: Cursor)
        ensures
            r == *self,
    {
        Cursor { index: self.index, object: self.object.copy(), elem_id: self.elem_id.copy() }
    }
}

impl ScalarValue {
    pub fn copy(&self) -> (r: ScalarValue)
        ensures
            r == *self,
    {
        match self {
            ScalarValue::Str(s) => ScalarValue::Str(s.clone()),
            ScalarValue::Int(i) => ScalarValue::Int(*i),
            ScalarValue::Uint(u) => ScalarValue::Uint(*u),
            ScalarValue::Boolean(b) => ScalarValue::Boolean(*b),
            ScalarValue::Null => ScalarValue::Null,
            ScalarValue::Counter(c) => ScalarValue::Counter(*c),
            ScalarValue::Timestamp(t) => ScalarValue::Timestamp(*t),
            ScalarValue::Cursor(c) => ScalarValue::Cursor(c.copy()),
        }
    }
}

pub open spec fn is_digit(c: char) -> bool {
    '0' <= c && c <= '9'
}

/// The number a run of decimal digits spells.
pub open spec fn digits_value(s: Seq<char>) -> nat
    decreases s.len(),
{
    if s.len() == 0 {
        0
    } else {
        digits_value(s.drop_last()) * 10 + ((s.last() as u32) - ('0' as u32)) as nat
    }
}

/// The position of the first `@`, or -1.
pub open spec fn at_sign(s: Seq<char>) -> int
    decreases s.len(),
{
    if s.len() == 0 {
        -1
    } else if at_sign(s.drop_last()) >= 0 {
        at_sign(s.drop_last())
    } else if s.last() == '@' {
        s.len() - 1
    } else {
        -1
    }
}

/// `s` is `<counter>@<actor>`: decimal digits that fit in 64 bits, then `@`,
/// then a non-empty actor.
pub open spec fn lamport_form(s: Seq<char>) -> bool {
    let p = at_sign(s);
    &&& p >= 1
    &&& p + 1 < s.len()
    &&& forall|i: int| 0 <= i < p ==> is_digit(#[trigger] s[i])
    &&& digits_value(s.subrange(0, p)) <= u64::MAX
}

pub open spec fn head_form(s: Seq<char>) -> bool {
    s == seq!['_', 'h', 'e', 'a', 'd']
}

pub proof fn lemma_digits_grow(s: Seq<char>, i: int, k: int)
    requires
        0 <= i <= k <= s.len(),
    ensures
        digits_value(s.subrange(0, i)) <= digits_value(s.subrange(0, k)),
    decreases k - i,
{
    if i < k {
        lemma_digits_grow(s, i, k - 1);
        assert(s.subrange(0, k).drop_last() =~= s.subrange(0, k - 1));
    }
}

pub proof fn lemma_at_sign(s: Seq<char>, k: int)
    requires
        0 <= k <= s.len(),
        at_sign(s.subrange(0, k)) == -1,
    ensures
        forall|i: int| 0 <= i < k ==> s[i] != '@',
    decreases k,
{
    if k > 0 {
        assert(s.subrange(0, k).drop_last() =~= s.subrange(0, k - 1));
        lemma_at_sign(s, k - 1);
    }
}

/// Once a prefix holds an `@`, the first `@` stays where it is.
pub proof fn lemma_at_sign_stays(s: Seq<char>, k: int)
    requires
        0 <= k <= s.len(),
        at_sign(s.subrange(0, k)) >= 0,
    ensures
        at_sign(s) == at_sign(s.subrange(0, k)),
    decreases s.len() - k,
{
    if k < s.len() {
        assert(s.subrange(0, k + 1).drop_last() =~= s.subrange(0, k));
        lemma_at_sign_stays(s, k + 1);
    } else {
        assert(s.subrange(0, k) =~= s);
    }
}

impl ElementId {
    /// The element id a string names: `_head`, or `<counter>@<actor>`.
    pub fn parse(s: &str) -> (r: Option<ElementId>)
        ensures
            head_form(s@) ==> r == Some(ElementId::Head),
            !head_form(s@) ==> (r is Some <==> lamport_form(s@)),
            !head_form(s@) && r is Some ==> ({
                let p = at_sign(s@);
                &&& r->Some_0 is Id
                &&& r->Some_0->Id_0.counter == digits_value(s@.subrange(0, p))
                &&& r->Some_0->Id_0.actor.label@ == s@.subrange(p + 1, s@.len() as int)
            }),
    {
        let n = s.unicode_len();
        if n == 5 && s.get_char(0) == '_' && s.get_char(1) == 'h' && s.get_char(2) == 'e' && s.get_char(3) == 'a'
            && s.get_char(4) == 'd' {
            assert(s@ =~= seq!['_', 'h', 'e', 'a', 'd']);
            return Some(ElementId::Head);
        }
        assert(!head_form(s@)) by {
            if head_form(s@) {
                assert(s@[0] == '_' && s@[1] == 'h' && s@[2] == 'e' && s@[3] == 'a' && s@[4] == 'd');
            }
        }
        let mut i: usize = 0;
        let mut value: u64 = 0;
        assert(s@.subrange(0, 0) =~= Seq::<char>::empty());
        while i < n
            invariant
                n == s@.len(),
                !head_form(s@),
                i <= n,
                at_sign(s@.subrange(0, i as int)) == -1,
                forall|t: int| 0 <= t < i ==> is_digit(#[trigger] s@[t]),
                value == digits_value(s@.subrange(0, i as int)),
            decreases n - i,
        {
            let c = s.get_char(i);
            proof {
                assert(s@.subrange(0, i + 1).drop_last() =~= s@.subrange(0, i as int));
            }
            if c == '@' {
                proof {
                    assert(at_sign(s@.subrange(0, i + 1)) == i);
                    lemma_at_sign_stays(s@, i + 1);
                }
                if i == 0 || i + 1 >= n {
                    return None;
                }
                let actor = s.substring_char(i + 1, n);
                let label = actor.to_owned();
                return Some(ElementId::Id(OpId { counter: value, actor: ActorId { label } }));
            }
            if !('0' <= c && c <= '9') {
                proof {
                    assert(at_sign(s@.subrange(0, i + 1)) == -1);
                    if lamport_form(s@) {
                        lemma_at_sign(s@, i + 1);
                        let p = at_sign(s@);
                        assert(s@[p] == '@') by {
                            lemma_at_sign_index(s@);
                        }
                        assert(p > i);
                        assert(is_digit(s@[i as int]));
                    }
                }
                return None;
            }
            let d: u64 = (c as u32 - '0' as u32) as u64;
            if value > (u64::MAX - d) / 10 {
                proof {
                    assert(value * 10 + d > u64::MAX) by (nonlinear_arith)
                        requires
                            value > (u64::MAX - d) / 10,
                            d <= 9,
                    ;
                    if lamport_form(s@) {
                        lemma_at_sign(s@, i + 1);
                        let p = at_sign(s@);
                        lemma_at_sign_index(s@);
                        assert(p > i);
                        lemma_digits_grow(s@, i + 1, p);
                    }
                }
                return None;
            }
            value = value * 10 + d;
            i = i + 1;
        }
        proof {
            assert(s@.subrange(0, i as int) =~= s@);
        }
        None
    }
}

pub proof fn lemma_at_sign_index(s: Seq<char>)
    ensures
        at_sign(s) >= 0 ==> at_sign(s) < s.len() && s[at_sign(s)] == '@',
    decreases s.len(),
{
    if s.len() > 0 {
        lemma_at_sign_index(s.drop_last());
    }
}

impl Key {
    /// A key read from a string: a sequence key when the string names an
    /// element id, a map key otherwise.
    pub fn from_string(s: String) -> (r: Key)
        ensures
            head_form(s@) ==> r == Key::Elem(ElementId::Head),
            !head_form(s@) && lamport_form(s@) ==> ({
                let p = at_sign(s@);
                &&& r is Elem
                &&& r->Elem_0 is Id
                &&& r->Elem_0->Id_0.counter == digits_value(s@.subrange(0, p))
                &&& r->Elem_0->Id_0.actor.label@ == s@.subrange(p + 1, s@.len() as int)
            }),
            !(head_form(s@) || lamport_form(s@)) ==> r == Key::Prop(s),
    {
        match ElementId::parse(s.as_str()) {
            Some(e) => Key::Elem(e),
            None => Key::Prop(s),
        }
    }
}

} // verus!
