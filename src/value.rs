//! Values exchanged with callers, paths, and local-change errors.

use vstd::prelude::*;

use crate::grapheme::{grapheme_count_of, is_single_grapheme};
use crate::protocol::{MapType, ScalarValue, SeqType};

verus! {

/// A value exchanged with callers.
pub enum Value {
    Primitive(ScalarValue),
    Object(Vec<(String, Value)>, MapType),
    Sequence(Vec<Value>, SeqType),
}

/// The mathematical model of a `Value`.
pub enum ValueModel {
    Primitive(ScalarValue),
    Object(Seq<(Seq<char>, ValueModel)>, MapType),
    Sequence(Seq<ValueModel>, SeqType),
}

impl Value {
    pub open spec fn model(&self) -> ValueModel
        decreases self,
    {
        match self {
            Value::Primitive(p) => ValueModel::Primitive(*p),
            Value::Object(entries, t) => ValueModel::Object(
                Seq::new(
                    entries.len() as nat,
                    |i: int|
                        if 0 <= i < entries.len() {
                            (entries[i].0@, entries[i].1.model())
                        } else {
                            (Seq::empty(), ValueModel::Primitive(ScalarValue::Null))
                        },
                ),
                *t,
            ),
            Value::Sequence(items, t) => ValueModel::Sequence(
                Seq::new(
                    items.len() as nat,
                    |i: int|
                        if 0 <= i < items.len() {
                            items[i].model()
                        } else {
                            ValueModel::Primitive(ScalarValue::Null)
                        },
                ),
                *t,
            ),
        }
    }

    /// The number of ops that creating this value takes: one per node.
    pub open spec fn op_count(&self) -> nat
        decreases self, 0nat,
    {
        match self {
            Value::Primitive(_) => 1,
            Value::Object(entries, _) => 1 + entries_op_count(entries@),
            Value::Sequence(items, _) => 1 + items_op_count(items@),
        }
    }
}

/// The ops that creating the values of a map's entries takes.
pub open spec fn entries_op_count(entries: Seq<(String, Value)>) -> nat
    decreases entries, 1nat,
{
    if entries.len() == 0 {
        0
    } else {
        entries_op_count(entries.drop_last()) + entries.last().1.op_count()
    }
}

/// The ops that creating the items of a sequence takes.
pub open spec fn items_op_count(items: Seq<Value>) -> nat
    decreases items, 1nat,
{
    if items.len() == 0 {
        0
    } else {
        items_op_count(items.drop_last()) + items.last().op_count()
    }
}

/// Every text sequence inside `v` holds single grapheme strings only.
pub open spec fn fits(v: Value) -> bool
    decreases v,
{
    match v {
        Value::Primitive(_) => true,
        Value::Object(entries, _) => forall|i: int|
            0 <= i < entries.len() ==> fits(#[trigger] entries[i].1),
        Value::Sequence(items, SeqType::List) => forall|i: int|
            0 <= i < items.len() ==> fits(#[trigger] items[i]),
        Value::Sequence(items, SeqType::Text) => forall|i: int|
            0 <= i < items.len() ==> is_grapheme_value(#[trigger] items[i]),
    }
}

/// A string of exactly one grapheme cluster.
pub open spec fn is_grapheme_value(v: Value) -> bool {
    match v {
        Value::Primitive(ScalarValue::Str(s)) => grapheme_count_of(s@) == 1,
        _ => false,
    }
}

impl Value {
    /// Whether every text sequence inside holds single grapheme strings only.
    pub fn check_fits(&self) -> (r: bool)
        ensures
            r == fits(*self),
        decreases self,
    {
        match self {
            Value::Primitive(_) => true,
            Value::Object(entries, mt) => {
                let mut i: usize = 0;
                while i < entries.len()
                    invariant
                        *self == Value::Object(*entries, *mt),
                        i <= entries.len(),
                        forall|t: int| 0 <= t < i ==> fits(#[trigger] entries[t].1),
                    decreases entries.len() - i,
                {
                    proof {
                        broadcast use vstd::std_specs::vec::axiom_vec_index_decreases;
                        assert(decreases_to!(*self => self->Object_0));
                        assert(decreases_to!(*entries => entries@));
                        assert(decreases_to!(entries@ => entries@[i as int]));
                        assert(decreases_to!(entries@[i as int] => entries@[i as int].1));
                    }
                    if !entries[i].1.check_fits() {
                        assert(!fits(entries@[i as int].1));
                        assert(self->Object_0@[i as int] == entries@[i as int]);
                        assert(!fits(*self));
                        return false;
                    }
                    i = i + 1;
                }
                true
            },
            Value::Sequence(items, t) => {
                let text = match t {
                    SeqType::Text => true,
                    SeqType::List => false,
                };
                let mut i: usize = 0;
                while i < items.len()
                    invariant
                        *self == Value::Sequence(*items, *t),
                        i <= items.len(),
                        text == (*t == SeqType::Text),
                        text ==> forall|u: int| 0 <= u < i ==> is_grapheme_value(#[trigger] items[u]),
                        !text ==> forall|u: int| 0 <= u < i ==> fits(#[trigger] items[u]),
                    decreases items.len() - i,
                {
                    if text {
                        let ok = match &items[i] {
                            Value::Primitive(ScalarValue::Str(s)) => is_single_grapheme(s.as_str()),
                            _ => false,
                        };
                        if !ok {
                            assert(!is_grapheme_value(items[i as int]));
                            assert(self->Sequence_0@[i as int] == items@[i as int]);
                            assert(*t == SeqType::Text);
                            assert(!fits(*self));
                            return false;
                        }
                    } else {
                        proof {
                            broadcast use vstd::std_specs::vec::axiom_vec_index_decreases;
                            assert(decreases_to!(*self => self->Sequence_0));
                            assert(decreases_to!(*items => items@));
                            assert(decreases_to!(items@ => items@[i as int]));
                        }
                        if !items[i].check_fits() {
                            assert(!fits(items@[i as int]));
                            assert(self->Sequence_0@[i as int] == items@[i as int]);
                            assert(*t == SeqType::List);
                            assert(!fits(*self));
                            return false;
                        }
                    }
                    i = i + 1;
                }
                true
            },
        }
    }
}

/// One step of a path.
pub enum PathElement {
    Key(String),
    Index(u32),
}

impl PathElement {
    pub fn copy(&self) -> (r: PathElement)
        ensures
            r == *self,
    {
        match self {
            PathElement::Key(k) => PathElement::Key(k.clone()),
            PathElement::Index(i) => PathElement::Index(*i),
        }
    }
}

/// A path from the root: the empty path is the root itself.
pub struct Path {
    pub elements: Vec<PathElement>,
}

impl View for Path {
    type V = Seq<PathElement>;

    open spec fn view(&self) -> Seq<PathElement> {
        self.elements@
    }
}

impl Path {
    pub fn root() -> (r: Path)
        ensures
            r@ == Seq::<PathElement>::empty(),
    {
        Path { elements: Vec::new() }
    }

    pub fn key(self, key: String) -> (r: Path)
        ensures
            r@ == self@.push(PathElement::Key(key)),
    {
        let mut elements = self.elements;
        elements.push(PathElement::Key(key));
        Path { elements }
    }

    pub fn index(self, index: u32) -> (r: Path)
        ensures
            r@ == self@.push(PathElement::Index(index)),
    {
        let mut elements = self.elements;
        elements.push(PathElement::Index(index));
        Path { elements }
    }

    /// The last element, or `None` for the root.
    pub fn name(&self) -> (r: Option<&PathElement>)
        ensures
            self@.len() == 0 ==> r is None,
            self@.len() > 0 ==> r is Some && *r->Some_0 == self@.last(),
    {
        let n = self.elements.len();
        if n == 0 {
            None
        } else {
            Some(&self.elements[n - 1])
        }
    }

    /// The path without its last element; the root is its own parent.
    pub fn parent(&self) -> (r: Path)
        ensures
            self@.len() == 0 ==> r@ == self@,
            self@.len() > 0 ==> r@ == self@.drop_last(),
    {
        let n = self.elements.len();
        let keep: usize = if n == 0 {
            0
        } else {
            n - 1
        };
        let mut elements: Vec<PathElement> = Vec::new();
        let mut i: usize = 0;
        while i < keep
            invariant
                keep <= n,
                n == self@.len(),
                i <= keep,
                elements@ == self@.take(i as int),
            decreases keep - i,
        {
            elements.push(self.elements[i].copy());
            i = i + 1;
            assert(elements@ =~= self@.take(i as int));
        }
        assert(n == 0 ==> self@.take(i as int) =~= self@);
        assert(n > 0 ==> self@.take(i as int) =~= self@.drop_last());
        Path { elements }
    }

    pub fn copy(&self) -> (r: Path)
        ensures
            r@ == self@,
    {
        let mut elements: Vec<PathElement> = Vec::new();
        let mut i: usize = 0;
        while i < self.elements.len()
            invariant
                i <= self@.len(),
                elements@ == self@.take(i as int),
            decreases self@.len() - i,
        {
            elements.push(self.elements[i].copy());
            i = i + 1;
            assert(elements@ =~= self@.take(i as int));
        }
        assert(self@.take(i as int) =~= self@);
        Path { elements }
    }
}

/// Why a local change was refused.
pub enum InvalidChangeRequest {
    NoSuchPathError { path: Path },
    CannotSetNonMapObjectAsRoot { value: Value },
    CannotOverwriteCounter { path: Path },
    CannotDeleteRootObject,
    InsertForNonSequenceObject { path: Path },
    InsertWithNonSequencePath { path: Path },
    InsertNonTextInTextObject { path: Path, object: Value },
    IncrementForNonCounterObject { path: Path },
    MissingIndexError { index: u64 },
}

} // verus!
