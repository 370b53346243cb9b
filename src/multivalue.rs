//! Registers: every surviving concurrent assignment, keyed by op id.

use vstd::prelude::*;

use crate::grapheme::{grapheme_count_of, is_single_grapheme};

use crate::protocol::{opid_eq, opid_lt, Diff, InvalidPatch, ObjType, ObjectId, OpId, ScalarValue};

verus! {

/// What one assignment of a register holds: a scalar, or a link to an object
/// of the state tree.
pub enum StateTreeValue {
    Leaf(ScalarValue),
    Composite(ObjType, ObjectId),
}

impl StateTreeValue {
    pub fn copy(&self) -> (r: StateTreeValue)
        ensures
            r == *self,
    {
        match self {
            StateTreeValue::Leaf(v) => StateTreeValue::Leaf(v.copy()),
            StateTreeValue::Composite(t, o) => StateTreeValue::Composite(*t, o.copy()),
        }
    }
}

/// The op ids of a register's entries, in order.
pub open spec fn opids_of<V>(s: Seq<(OpId, V)>) -> Seq<OpId> {
    s.map_values(|e: (OpId, V)| e.0)
}

/// No two entries share an op id.
pub open spec fn distinct_opids<V>(s: Seq<(OpId, V)>) -> bool {
    forall|i: int, j: int| 0 <= i < s.len() && 0 <= j < s.len() && i != j ==> !opid_eq(s[i].0, s[j].0)
}

/// A register: non-empty, one entry per op id.
pub open spec fn valid_entries<V>(s: Seq<(OpId, V)>) -> bool {
    s.len() > 0 && distinct_opids(s)
}

/// The position of the Lamport-greatest entry (the first of equals).
pub open spec fn max_index<V>(s: Seq<(OpId, V)>) -> int
    decreases s.len(),
{
    if s.len() <= 1 {
        0
    } else {
        let m = max_index(s.drop_last());
        if opid_lt(s[m].0, s.last().0) {
            s.len() - 1
        } else {
            m
        }
    }
}

/// The op id of the register's default value.
pub open spec fn default_opid_of<V>(s: Seq<(OpId, V)>) -> OpId {
    s[max_index(s)].0
}

/// The last position whose op id is `o`, or -1.
pub open spec fn find_opid<V>(s: Seq<(OpId, V)>, o: OpId) -> int
    decreases s.len(),
{
    if s.len() == 0 {
        -1
    } else if opid_eq(s.last().0, o) {
        s.len() - 1
    } else {
        find_opid(s.drop_last(), o)
    }
}

/// The register with the entry for `o` set to `v`.
pub open spec fn put_entry<V>(s: Seq<(OpId, V)>, o: OpId, v: V) -> Seq<(OpId, V)> {
    let i = find_opid(s, o);
    if i >= 0 {
        s.update(i, (o, v))
    } else {
        s.push((o, v))
    }
}

/// The entries of `t` put into `s` one after the other.
pub open spec fn merge_entries<V>(s: Seq<(OpId, V)>, t: Seq<(OpId, V)>) -> Seq<(OpId, V)>
    decreases t.len(),
{
    if t.len() == 0 {
        s
    } else {
        let m = merge_entries(s, t.drop_last());
        put_entry(m, t.last().0, t.last().1)
    }
}

/// The entry for `o` alone, if there is one.
pub open spec fn only_entry<V>(s: Seq<(OpId, V)>, o: OpId) -> Option<Seq<(OpId, V)>> {
    let i = find_opid(s, o);
    if i >= 0 {
        Some(seq![s[i]])
    } else {
        None
    }
}

pub proof fn lemma_max_index_bounds<V>(s: Seq<(OpId, V)>)
    requires
        s.len() > 0,
    ensures
        0 <= max_index(s) < s.len(),
    decreases s.len(),
{
    if s.len() > 1 {
        lemma_max_index_bounds(s.drop_last());
    }
}

pub proof fn lemma_find_opid<V>(s: Seq<(OpId, V)>, o: OpId)
    ensures
        -1 <= find_opid(s, o) < s.len(),
        find_opid(s, o) >= 0 ==> opid_eq(s[find_opid(s, o)].0, o),
        find_opid(s, o) == -1 ==> forall|i: int| 0 <= i < s.len() ==> !opid_eq(#[trigger] s[i].0, o),
    decreases s.len(),
{
    if s.len() > 0 {
        lemma_find_opid(s.drop_last(), o);
        if !opid_eq(s.last().0, o) && find_opid(s, o) == -1 {
            assert forall|i: int| 0 <= i < s.len() implies !opid_eq(#[trigger] s[i].0, o) by {
                if i < s.len() - 1 {
                    assert(s[i] == s.drop_last()[i]);
                }
            }
        }
    }
}

pub proof fn lemma_put_entry_valid<V>(s: Seq<(OpId, V)>, o: OpId, v: V)
    requires
        valid_entries(s),
    ensures
        valid_entries(put_entry(s, o, v)),
        put_entry(s, o, v).len() >= s.len(),
{
    lemma_find_opid(s, o);
    let r = put_entry(s, o, v);
    let k = find_opid(s, o);
    assert forall|i: int, j: int| 0 <= i < r.len() && 0 <= j < r.len() && i != j implies !opid_eq(
        r[i].0,
        r[j].0,
    ) by {
        if k >= 0 {
            if i == k {
                assert(!opid_eq(s[i].0, s[j].0));
            } else if j == k {
                assert(!opid_eq(s[i].0, s[j].0));
            }
        } else {
            if i == s.len() {
                assert(!opid_eq(s[j].0, o));
            } else if j == s.len() {
                assert(!opid_eq(s[i].0, o));
            }
        }
    }
}

pub proof fn lemma_merge_valid<V>(s: Seq<(OpId, V)>, t: Seq<(OpId, V)>)
    requires
        valid_entries(s),
    ensures
        valid_entries(merge_entries(s, t)),
    decreases t.len(),
{
    if t.len() > 0 {
        lemma_merge_valid(s, t.drop_last());
        lemma_put_entry_valid(merge_entries(s, t.drop_last()), t.last().0, t.last().1);
    }
}

/// The position of the Lamport-greatest entry.
pub fn max_entry_index<V>(s: &Vec<(OpId, V)>) -> (r: usize)
    requires
        s@.len() > 0,
    ensures
        r as int == max_index(s@),
        r < s@.len(),
{
    let mut best: usize = 0;
    let mut i: usize = 1;
    assert(s@.take(1).len() == 1);
    while i < s.len()
        invariant
            1 <= i <= s@.len(),
            best < i,
            best as int == max_index(s@.take(i as int)),
        decreases s@.len() - i,
    {
        proof {
            assert(s@.take(i + 1).drop_last() =~= s@.take(i as int));
        }
        if s[best].0.less_than(&s[i].0) {
            best = i;
        }
        i = i + 1;
    }
    assert(s@.take(i as int) =~= s@);
    best
}

/// The last position whose op id is `o`.
pub fn find_entry<V>(s: &Vec<(OpId, V)>, o: &OpId) -> (r: Option<usize>)
    ensures
        match r {
            Some(i) => i as int == find_opid(s@, *o),
            None => find_opid(s@, *o) == -1,
        },
{
    let mut i: usize = s.len();
    assert(s@.take(i as int) =~= s@);
    while i > 0
        invariant
            i <= s@.len(),
            find_opid(s@, *o) == find_opid(s@.take(i as int), *o),
        decreases i,
    {
        assert(s@.take(i as int).drop_last() =~= s@.take(i - 1));
        if s[i - 1].0.same(o) {
            return Some(i - 1);
        }
        i = i - 1;
    }
    None
}

/// Sets the entry for `o` to `v`, replacing an existing one.
pub fn put<V>(s: &mut Vec<(OpId, V)>, o: OpId, v: V)
    ensures
        final(s)@ == put_entry(old(s)@, o, v),
{
    proof {
        lemma_find_opid(s@, o);
    }
    match find_entry(s, &o) {
        Some(i) => {
            s.set(i, (o, v));
        },
        None => {
            s.push((o, v));
        },
    }
}

/// Puts every entry of `t` into `s`, in order.
pub fn merge_into<V>(s: &mut Vec<(OpId, V)>, t: Vec<(OpId, V)>)
    ensures
        final(s)@ == merge_entries(old(s)@, t@),
{
    let ghost t0 = t@;
    let n = t.len();
    let mut rest = t;
    let mut k: usize = 0;
    while rest.len() > 0
        invariant
            k + rest@.len() == t0.len(),
            n == t0.len(),
            rest@ == t0.skip(k as int),
            s@ == merge_entries(old(s)@, t0.take(k as int)),
        decreases rest@.len(),
    {
        let e = rest.remove(0);
        proof {
            assert(t0.take(k + 1).drop_last() =~= t0.take(k as int));
            assert(e == t0[k as int]);
            assert(rest@ =~= t0.skip(k + 1));
        }
        put(s, e.0, e.1);
        k = k + 1;
    }
    assert(t0.take(k as int) =~= t0);
}

/// The op ids of `s`, in order.
pub fn collect_opids<V>(s: &Vec<(OpId, V)>) -> (r: Vec<OpId>)
    ensures
        r@ == opids_of(s@),
{
    let mut r: Vec<OpId> = Vec::new();
    let mut i: usize = 0;
    while i < s.len()
        invariant
            i <= s@.len(),
            r@ == opids_of(s@).take(i as int),
        decreases s@.len() - i,
    {
        r.push(s[i].0.copy());
        i = i + 1;
        assert(r@ =~= opids_of(s@).take(i as int));
    }
    assert(opids_of(s@).take(i as int) =~= opids_of(s@));
    r
}

/// The values a sequence holds, as a patch builds and updates them.
pub trait DiffableValue: Sized + View {
    /// What a value built from one diff holds, or `None` when the diff does
    /// not fit this kind of value.
    spec fn constructed(opid: OpId, diff: Diff) -> Option<Self::V>;

    /// `a` with the entries of `b` added.
    spec fn merged(a: Self::V, b: Self::V) -> Self::V;

    spec fn default_of(v: Self::V) -> OpId;

    spec fn valid(v: Self::V) -> bool;

    proof fn lemma_merged_valid(a: Self::V, b: Self::V)
        requires
            Self::valid(a),
            Self::valid(b),
        ensures
            Self::valid(Self::merged(a, b)),
    ;

    fn construct(opid: &OpId, diff: &Diff) -> (r: Result<Self, InvalidPatch>)
        ensures
            match r {
                Ok(v) => Self::constructed(*opid, *diff) == Some(v@) && Self::valid(v@),
                Err(e) => Self::constructed(*opid, *diff) is None && e is MismatchedType,
            },
    ;

    fn default_opid(&self) -> (r: OpId)
        requires
            Self::valid(self@),
        ensures
            r == Self::default_of(self@),
    ;

    fn add_values_from(&mut self, other: Self)
        ensures
            final(self)@ == Self::merged(old(self)@, other@),
    ;

    fn duplicate(&self) -> (r: Self)
        ensures
            r@ == self@,
    ;
}

/// A register: every surviving concurrent assignment, keyed by the op that
/// made it.
pub struct MultiValue {
    pub entries: Vec<(OpId, StateTreeValue)>,
}

impl View for MultiValue {
    type V = Seq<(OpId, StateTreeValue)>;

    open spec fn view(&self) -> Seq<(OpId, StateTreeValue)> {
        self.entries@
    }
}

impl MultiValue {
    pub open spec fn wf(&self) -> bool {
        valid_entries(self@)
    }

    /// The value assigned by `opid` alone.
    pub fn new_single(opid: OpId, value: StateTreeValue) -> (r: MultiValue)
        ensures
            r@ == seq![(opid, value)],
            r.wf(),
    {
        let mut entries: Vec<(OpId, StateTreeValue)> = Vec::new();
        entries.push((opid, value));
        MultiValue { entries }
    }

    /// The op id of the Lamport-greatest assignment.
    pub fn default_opid(&self) -> (r: OpId)
        requires
            self.wf(),
        ensures
            r == default_opid_of(self@),
    {
        let i = max_entry_index(&self.entries);
        self.entries[i].0.copy()
    }

    /// The value of the Lamport-greatest assignment.
    pub fn default_statetree_value(&self) -> (r: &StateTreeValue)
        requires
            self.wf(),
        ensures
            *r == self@[max_index(self@)].1,
    {
        let i = max_entry_index(&self.entries);
        &self.entries[i].1
    }

    /// The op ids this register would be overwritten over.
    pub fn opids(&self) -> (r: Vec<OpId>)
        ensures
            r@ == opids_of(self@),
    {
        collect_opids(&self.entries)
    }

    /// The assignment made by `opid` alone, if there is one.
    pub fn only_for_opid(&self, opid: &OpId) -> (r: Option<MultiValue>)
        ensures
            match only_entry(self@, *opid) {
                Some(s) => r is Some && r->Some_0@ == s,
                None => r is None,
            },
    {
        proof {
            lemma_find_opid(self@, *opid);
        }
        match find_entry(&self.entries, opid) {
            Some(i) => {
                let e = &self.entries[i];
                let r = MultiValue::new_single(e.0.copy(), e.1.copy());
                assert(r@ =~= seq![self@[i as int]]);
                Some(r)
            },
            None => None,
        }
    }
}

impl DiffableValue for MultiValue {
    open spec fn constructed(opid: OpId, diff: Diff) -> Option<Seq<(OpId, StateTreeValue)>> {
        match diff {
            Diff::Value(v) => Some(seq![(opid, StateTreeValue::Leaf(v))]),
            Diff::Object(t, o) => Some(seq![(opid, StateTreeValue::Composite(t, o))]),
        }
    }

    open spec fn merged(
        a: Seq<(OpId, StateTreeValue)>,
        b: Seq<(OpId, StateTreeValue)>,
    ) -> Seq<(OpId, StateTreeValue)> {
        merge_entries(a, b)
    }

    open spec fn default_of(v: Seq<(OpId, StateTreeValue)>) -> OpId {
        default_opid_of(v)
    }

    open spec fn valid(v: Seq<(OpId, StateTreeValue)>) -> bool {
        valid_entries(v)
    }

    proof fn lemma_merged_valid(a: Seq<(OpId, StateTreeValue)>, b: Seq<(OpId, StateTreeValue)>) {
        lemma_merge_valid(a, b);
    }

    fn construct(opid: &OpId, diff: &Diff) -> (r: Result<MultiValue, InvalidPatch>) {
        let value = match diff {
            Diff::Value(v) => StateTreeValue::Leaf(v.copy()),
            Diff::Object(t, o) => StateTreeValue::Composite(*t, o.copy()),
        };
        Ok(MultiValue::new_single(opid.copy(), value))
    }

    fn default_opid(&self) -> (r: OpId) {
        MultiValue::default_opid(self)
    }

    fn add_values_from(&mut self, other: MultiValue) {
        merge_into(&mut self.entries, other.entries);
    }

    fn duplicate(&self) -> (r: MultiValue) {
        let mut entries: Vec<(OpId, StateTreeValue)> = Vec::new();
        let mut i: usize = 0;
        while i < self.entries.len()
            invariant
                i <= self@.len(),
                entries@ == self@.take(i as int),
            decreases self@.len() - i,
        {
            let e = &self.entries[i];
            entries.push((e.0.copy(), e.1.copy()));
            i = i + 1;
            assert(entries@ =~= self@.take(i as int));
        }
        assert(self@.take(i as int) =~= self@);
        MultiValue { entries }
    }
}

/// A text register: every value is one grapheme cluster.
pub struct MultiGrapheme {
    pub entries: Vec<(OpId, String)>,
}

/// Every value of a text register is one extended grapheme cluster.
pub open spec fn all_graphemes(s: Seq<(OpId, String)>) -> bool {
    forall|i: int| 0 <= i < s.len() ==> grapheme_count_of((#[trigger] s[i]).1@) == 1
}

pub proof fn lemma_put_graphemes(s: Seq<(OpId, String)>, o: OpId, g: String)
    requires
        all_graphemes(s),
        grapheme_count_of(g@) == 1,
    ensures
        all_graphemes(put_entry(s, o, g)),
{
    lemma_find_opid(s, o);
}

pub proof fn lemma_merge_graphemes(s: Seq<(OpId, String)>, t: Seq<(OpId, String)>)
    requires
        all_graphemes(s),
        all_graphemes(t),
    ensures
        all_graphemes(merge_entries(s, t)),
    decreases t.len(),
{
    if t.len() > 0 {
        assert(all_graphemes(t.drop_last())) by {
            assert forall|i: int| 0 <= i < t.len() - 1 implies grapheme_count_of((#[trigger] t.drop_last()[i]).1@) == 1 by {
                assert(t.drop_last()[i] == t[i]);
            }
        }
        lemma_merge_graphemes(s, t.drop_last());
        lemma_put_graphemes(merge_entries(s, t.drop_last()), t.last().0, t.last().1);
    }
}

impl View for MultiGrapheme {
    type V = Seq<(OpId, String)>;

    open spec fn view(&self) -> Seq<(OpId, String)> {
        self.entries@
    }
}

impl MultiGrapheme {
    pub open spec fn wf(&self) -> bool {
        valid_entries(self@) && all_graphemes(self@)
    }

    pub fn new_from_grapheme_cluster(opid: OpId, grapheme: String) -> (r: MultiGrapheme)
        requires
            grapheme_count_of(grapheme@) == 1,
        ensures
            r@ == seq![(opid, grapheme)],
            r.wf(),
    {
        let mut entries: Vec<(OpId, String)> = Vec::new();
        entries.push((opid, grapheme));
        MultiGrapheme { entries }
    }

    pub fn default_opid(&self) -> (r: OpId)
        requires
            self.wf(),
        ensures
            r == default_opid_of(self@),
    {
        let i = max_entry_index(&self.entries);
        self.entries[i].0.copy()
    }

    /// The grapheme of the Lamport-greatest assignment.
    pub fn default_grapheme(&self) -> (r: String)
        requires
            self.wf(),
        ensures
            r == self@[max_index(self@)].1,
    {
        let i = max_entry_index(&self.entries);
        self.entries[i].1.clone()
    }

    pub fn opids(&self) -> (r: Vec<OpId>)
        ensures
            r@ == opids_of(self@),
    {
        collect_opids(&self.entries)
    }
}

impl DiffableValue for MultiGrapheme {
    open spec fn constructed(opid: OpId, diff: Diff) -> Option<Seq<(OpId, String)>> {
        match diff {
            Diff::Value(ScalarValue::Str(s)) => if grapheme_count_of(s@) == 1 {
                Some(seq![(opid, s)])
            } else {
                None
            },
            _ => None,
        }
    }

    open spec fn merged(a: Seq<(OpId, String)>, b: Seq<(OpId, String)>) -> Seq<(OpId, String)> {
        merge_entries(a, b)
    }

    open spec fn default_of(v: Seq<(OpId, String)>) -> OpId {
        default_opid_of(v)
    }

    open spec fn valid(v: Seq<(OpId, String)>) -> bool {
        valid_entries(v) && all_graphemes(v)
    }

    proof fn lemma_merged_valid(a: Seq<(OpId, String)>, b: Seq<(OpId, String)>) {
        lemma_merge_valid(a, b);
        lemma_merge_graphemes(a, b);
    }

    fn construct(opid: &OpId, diff: &Diff) -> (r: Result<MultiGrapheme, InvalidPatch>) {
        match diff {
            Diff::Value(ScalarValue::Str(s)) => {
                if is_single_grapheme(s.as_str()) {
                    Ok(MultiGrapheme::new_from_grapheme_cluster(opid.copy(), s.clone()))
                } else {
                    Err(InvalidPatch::MismatchedType)
                }
            },
            _ => Err(InvalidPatch::MismatchedType),
        }
    }

    fn default_opid(&self) -> (r: OpId) {
        MultiGrapheme::default_opid(self)
    }

    fn add_values_from(&mut self, other: MultiGrapheme) {
        merge_into(&mut self.entries, other.entries);
    }

    fn duplicate(&self) -> (r: MultiGrapheme) {
        let mut entries: Vec<(OpId, String)> = Vec::new();
        let mut i: usize = 0;
        while i < self.entries.len()
            invariant
                i <= self@.len(),
                entries@ == self@.take(i as int),
            decreases self@.len() - i,
        {
            let e = &self.entries[i];
            entries.push((e.0.copy(), e.1.clone()));
            i = i + 1;
            assert(entries@ =~= self@.take(i as int));
        }
        assert(self@.take(i as int) =~= self@);
        MultiGrapheme { entries }
    }
}

} // verus!
