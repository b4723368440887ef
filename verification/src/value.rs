//! The typed value model: every value representable on the XML-RPC wire,
//! together with its mathematical view and well-formedness invariant.

use vstd::prelude::*;

use crate::bytes::{cmp_bytes, lex_lt, KeyCmp};
use vstd::pervasive::VecAdditionalExecFns;

verus! {

/// A structured date, in one of the three ISO 8601 forms.
#[derive(Clone, Copy, Debug, PartialEq, Eq, Structural)]
pub enum Date {
    /// Year, month and day of month.
    Ymd { year: i32, month: u32, day: u32 },
    /// Year, week and day of week.
    Week { year: i32, ww: u32, d: u32 },
    /// Year and day of year.
    Ordinal { year: i32, ddd: u32 },
}

/// A time of day with fractional seconds and a UTC offset.
#[derive(Clone, Copy, Debug, PartialEq, Eq, Structural)]
pub struct Time {
    pub hour: u32,
    pub minute: u32,
    pub second: u32,
    pub millisecond: u32,
    pub tz_offset_hours: i32,
    pub tz_offset_minutes: i32,
}

/// A date and time, as carried by a `<dateTime.iso8601>` value.
///
/// Only the raw fields sent by the server are stored; no calendar arithmetic
/// is implied.
#[derive(Clone, Copy, Debug, PartialEq, Eq, Structural)]
pub struct DateTime {
    pub date: Date,
    pub time: Time,
}

/// The possible XML-RPC values.
///
/// Strings and struct keys are byte strings: the wire presumes UTF-8 but the
/// model is tolerant of arbitrary bytes. A `Double` holds the bit pattern of
/// the 64-bit IEEE 754 number it stands for. A `Struct` holds its members
/// ordered by key, each key unique; later insertions of an existing key
/// overwrite the earlier value.
#[derive(Debug, PartialEq)]
pub enum Value {
    /// A 32-bit signed integer (`<i4>` or `<int>`).
    Int(i32),
    /// A 64-bit signed integer (`<i8>`); an extension type.
    Int64(i64),
    /// A boolean (`<boolean>`, `0` or `1` on the wire).
    Bool(bool),
    /// A string (`<string>`), as raw bytes.
    String(Vec<u8>),
    /// A double-precision IEEE 754 number (`<double>`), stored as its
    /// decimal wire text; see `crate::dbl` for the syntax it must have.
    Double(Vec<u8>),
    /// An ISO 8601 date/time value (`<dateTime.iso8601>`).
    DateTime(DateTime),
    /// Base64-encoded binary data (`<base64>`), stored decoded.
    Base64(Vec<u8>),
    /// A mapping of named values (`<struct>`), ordered by key.
    Struct(Vec<(Vec<u8>, Value)>),
    /// A list of arbitrary values (`<array>`).
    Array(Vec<Value>),
    /// The empty value (`<nil/>`); an extension type.
    Nil,
}

/// The mathematical model of a `Value`: the same tree over `Seq` and `int`.
pub ghost enum ValueView {
    Int(int),
    Int64(int),
    Bool(bool),
    String(Seq<u8>),
    Double(Seq<u8>),
    DateTime(DateTime),
    Base64(Seq<u8>),
    Struct(Seq<(Seq<u8>, ValueView)>),
    Array(Seq<ValueView>),
    Nil,
}

/// The view of a struct member list.
pub open spec fn entries_view(m: Seq<(Vec<u8>, Value)>) -> Seq<(Seq<u8>, ValueView)>
    decreases m,
{
    Seq::new(
        m.len(),
        |i: int|
            if 0 <= i < m.len() {
                (m[i].0@, view_of(m[i].1))
            } else {
                (Seq::empty(), ValueView::Nil)
            },
    )
}

/// The view of an array element list.
pub open spec fn elems_view(a: Seq<Value>) -> Seq<ValueView>
    decreases a,
{
    Seq::new(a.len(), |i: int| if 0 <= i < a.len() { view_of(a[i]) } else { ValueView::Nil })
}

pub open spec fn view_of(v: Value) -> ValueView
    decreases v,
{
    match v {
        Value::Int(i) => ValueView::Int(i as int),
        Value::Int64(i) => ValueView::Int64(i as int),
        Value::Bool(b) => ValueView::Bool(b),
        Value::String(s) => ValueView::String(s@),
        Value::Double(t) => ValueView::Double(t@),
        Value::DateTime(dt) => ValueView::DateTime(dt),
        Value::Base64(b) => ValueView::Base64(b@),
        Value::Struct(m) => ValueView::Struct(entries_view(m@)),
        Value::Array(a) => ValueView::Array(elems_view(a@)),
        Value::Nil => ValueView::Nil,
    }
}

impl View for Value {
    type V = ValueView;

    open spec fn view(&self) -> ValueView {
        view_of(*self)
    }
}

/// Struct member keys are strictly increasing in lexicographic order, which
/// also makes them unique.
pub open spec fn entries_sorted(s: Seq<(Seq<u8>, ValueView)>) -> bool {
    forall|i: int, j: int| 0 <= i < j < s.len() ==> lex_lt(s[i].0, s[j].0)
}

/// Well-formedness of a value: every struct in the tree keeps its members
/// sorted by key, and every double carries valid float syntax.
pub open spec fn wf_view(v: ValueView) -> bool
    decreases v, 0int,
{
    match v {
        ValueView::Double(t) => crate::dbl::is_f64_text(t),
        ValueView::Struct(m) => entries_sorted(m) && wf_members(m, 0),
        ValueView::Array(a) => wf_elems(a, 0),
        _ => true,
    }
}

/// Every member value from index `i` on is well formed.
pub open spec fn wf_members(m: Seq<(Seq<u8>, ValueView)>, i: int) -> bool
    decreases m, m.len() - i,
{
    if 0 <= i < m.len() {
        wf_view(m[i].1) && wf_members(m, i + 1)
    } else {
        true
    }
}

/// Every element from index `i` on is well formed.
pub open spec fn wf_elems(a: Seq<ValueView>, i: int) -> bool
    decreases a, a.len() - i,
{
    if 0 <= i < a.len() {
        wf_view(a[i]) && wf_elems(a, i + 1)
    } else {
        true
    }
}

/// `wf_members` says exactly that each member value from `j` on is well
/// formed.
pub proof fn lemma_wf_members_equiv(m: Seq<(Seq<u8>, ValueView)>, j: int)
    requires
        0 <= j <= m.len(),
    ensures
        wf_members(m, j) <==> (forall|i: int|
            #![trigger m[i]]
            j <= i < m.len() ==> wf_view(m[i].1)),
    decreases m.len() - j,
{
    if j < m.len() {
        lemma_wf_members_equiv(m, j + 1);
        if wf_members(m, j) {
            assert forall|i: int| #![trigger m[i]] j <= i < m.len() implies wf_view(m[i].1) by {
                if i == j {
                    assert(wf_view(m[j].1));
                } else {
                    assert(j + 1 <= i < m.len());
                }
            }
        }
        if forall|i: int| #![trigger m[i]] j <= i < m.len() ==> wf_view(m[i].1) {
            assert(wf_view(m[j].1));
            assert forall|i: int| #![trigger m[i]] j + 1 <= i < m.len() implies wf_view(
                m[i].1,
            ) by {
                assert(j <= i < m.len());
            }
            assert(wf_members(m, j + 1));
        }
    }
}

/// `wf_elems` says exactly that each element from `j` on is well formed.
pub proof fn lemma_wf_elems_equiv(a: Seq<ValueView>, j: int)
    requires
        0 <= j <= a.len(),
    ensures
        wf_elems(a, j) <==> (forall|i: int|
            #![trigger a[i]]
            j <= i < a.len() ==> wf_view(a[i])),
    decreases a.len() - j,
{
    if j < a.len() {
        lemma_wf_elems_equiv(a, j + 1);
        if wf_elems(a, j) {
            assert forall|i: int| #![trigger a[i]] j <= i < a.len() implies wf_view(a[i]) by {
                if i == j {
                    assert(wf_view(a[j]));
                } else {
                    assert(j + 1 <= i < a.len());
                }
            }
        }
        if forall|i: int| #![trigger a[i]] j <= i < a.len() ==> wf_view(a[i]) {
            assert(wf_view(a[j]));
            assert forall|i: int| #![trigger a[i]] j + 1 <= i < a.len() implies wf_view(a[i]) by {
                assert(j <= i < a.len());
            }
            assert(wf_elems(a, j + 1));
        }
    }
}

/// Looks a key up in a member list: the value of the first member with that
/// key, if any.
pub open spec fn spec_struct_get(s: Seq<(Seq<u8>, ValueView)>, k: Seq<u8>) -> Option<ValueView>
    decreases s.len(),
{
    if s.len() == 0 {
        None
    } else if s[0].0 == k {
        Some(s[0].1)
    } else {
        spec_struct_get(s.drop_first(), k)
    }
}

/// Inserts a member into a key-sorted member list, overwriting the member
/// with the same key if one is present.
pub open spec fn spec_struct_set(
    s: Seq<(Seq<u8>, ValueView)>,
    k: Seq<u8>,
    v: ValueView,
) -> Seq<(Seq<u8>, ValueView)>
    decreases s.len(),
{
    if s.len() == 0 {
        seq![(k, v)]
    } else if lex_lt(k, s[0].0) {
        seq![(k, v)] + s
    } else if k == s[0].0 {
        seq![(k, v)] + s.drop_first()
    } else {
        seq![s[0]] + spec_struct_set(s.drop_first(), k, v)
    }
}

impl Value {
    /// If the `Value` is a normal 32-bit integer, returns it.
    pub fn as_i32(&self) -> (r: Option<i32>)
        ensures
            r matches Some(i) ==> self@ == ValueView::Int(i as int),
            r is None <==> !(self@ is Int),
    {
        match *self {
            Value::Int(i) => Some(i),
            _ => None,
        }
    }

    /// If the `Value` is an integer of either width, returns it widened to 64
    /// bits.
    pub fn as_i64(&self) -> (r: Option<i64>)
        ensures
            r matches Some(i) ==> self@ == ValueView::Int(i as int) || self@ == ValueView::Int64(
                i as int,
            ),
            r is None <==> !(self@ is Int) && !(self@ is Int64),
    {
        match *self {
            Value::Int(i) => Some(i as i64),
            Value::Int64(i) => Some(i),
            _ => None,
        }
    }

    /// If the `Value` is a boolean, returns it.
    pub fn as_bool(&self) -> (r: Option<bool>)
        ensures
            r matches Some(b) ==> self@ == ValueView::Bool(b),
            r is None <==> !(self@ is Bool),
    {
        match *self {
            Value::Bool(b) => Some(b),
            _ => None,
        }
    }

    /// If the `Value` is a string, returns its bytes.
    pub fn as_str(&self) -> (r: Option<&Vec<u8>>)
        ensures
            r matches Some(s) ==> self@ == ValueView::String(s@),
            r is None <==> !(self@ is String),
    {
        match self {
            Value::String(s) => Some(s),
            _ => None,
        }
    }

    /// If the `Value` is a double, returns its decimal text.
    pub fn as_double_text(&self) -> (r: Option<&Vec<u8>>)
        ensures
            r matches Some(t) ==> self@ == ValueView::Double(t@),
            r is None <==> !(self@ is Double),
    {
        match self {
            Value::Double(t) => Some(t),
            _ => None,
        }
    }

    /// If the `Value` is a date/time, returns it.
    pub fn as_datetime(&self) -> (r: Option<DateTime>)
        ensures
            r matches Some(dt) ==> self@ == ValueView::DateTime(dt),
            r is None <==> !(self@ is DateTime),
    {
        match *self {
            Value::DateTime(dt) => Some(dt),
            _ => None,
        }
    }

    /// If the `Value` is base64 binary data, returns the decoded bytes.
    pub fn as_bytes(&self) -> (r: Option<&Vec<u8>>)
        ensures
            r matches Some(b) ==> self@ == ValueView::Base64(b@),
            r is None <==> !(self@ is Base64),
    {
        match self {
            Value::Base64(b) => Some(b),
            _ => None,
        }
    }

    /// If the `Value` is a struct, returns its member list.
    pub fn as_struct(&self) -> (r: Option<&Vec<(Vec<u8>, Value)>>)
        ensures
            r matches Some(m) ==> self@ == ValueView::Struct(entries_view(m@)),
            r is None <==> !(self@ is Struct),
    {
        match self {
            Value::Struct(m) => Some(m),
            _ => None,
        }
    }

    /// If the `Value` is an array, returns its elements.
    pub fn as_array(&self) -> (r: Option<&Vec<Value>>)
        ensures
            r matches Some(a) ==> self@ == ValueView::Array(elems_view(a@)),
            r is None <==> !(self@ is Array),
    {
        match self {
            Value::Array(a) => Some(a),
            _ => None,
        }
    }
}

/// Looks up `key` in a struct member list.
pub fn struct_get<'v>(m: &'v Vec<(Vec<u8>, Value)>, key: &[u8]) -> (r: Option<&'v Value>)
    ensures
        r matches Some(v) ==> spec_struct_get(entries_view(m@), key@) == Some(view_of(*v)),
        r is None <==> spec_struct_get(entries_view(m@), key@) is None,
{
    let ghost s = entries_view(m@);
    proof {
        assert(s.skip(0) =~= s);
    }
    let mut i: usize = 0;
    loop
        invariant
            0 <= i <= m@.len(),
            s == entries_view(m@),
            s.len() == m@.len(),
            spec_struct_get(s, key@) == spec_struct_get(s.skip(i as int), key@),
            forall|j: int| 0 <= j < i ==> s[j].0 != key@,
        decreases m@.len() - i,
    {
        if i == m.len() {
            proof {
                assert(s.skip(i as int).len() == 0);
            }
            return None;
        }
        proof {
            assert(s.skip(i as int)[0] == s[i as int]);
            assert(s.skip(i as int).drop_first() =~= s.skip(i as int + 1));
        }
        if crate::bytes::bytes_eq(m[i].0.as_slice(), key) {
            return Some(&m[i].1);
        }
        i = i + 1;
    }
}

/// Inserts a member into a key-sorted member list, keeping it sorted and
/// overwriting the member with the same key if one is present.
pub fn struct_set(m: &mut Vec<(Vec<u8>, Value)>, key: Vec<u8>, val: Value)
    ensures
        entries_view(final (m)@) == spec_struct_set(entries_view(old(m)@), key@, view_of(val)),
{
    let ghost s0 = entries_view(old(m)@);
    proof {
        assert(s0.skip(0) =~= s0);
        assert(s0.subrange(0, 0) + spec_struct_set(s0, key@, view_of(val)) =~= spec_struct_set(
            s0,
            key@,
            view_of(val),
        ));
    }
    let mut i: usize = 0;
    loop
        invariant
            0 <= i <= m@.len(),
            m@ == old(m)@,
            s0 == entries_view(m@),
            s0.len() == m@.len(),
            spec_struct_set(s0, key@, view_of(val)) == s0.subrange(0, i as int) + spec_struct_set(
                s0.skip(i as int),
                key@,
                view_of(val),
            ),
            forall|j: int| 0 <= j < i ==> lex_lt(s0[j].0, key@),
        decreases m@.len() - i,
    {
        proof {
            assert(s0.skip(i as int).len() == m@.len() - i);
        }
        if i == m.len() {
            m.push((key, val));
            proof {
                assert(entries_view(m@) =~= s0.subrange(0, i as int) + seq![
                    (key@, view_of(val)),
                ]);
                assert(spec_struct_set(s0.skip(i as int), key@, view_of(val)) =~= seq![
                    (key@, view_of(val)),
                ]);
            }
            return ;
        }
        proof {
            assert(s0.skip(i as int)[0] == s0[i as int]);
            assert(s0.skip(i as int).drop_first() =~= s0.skip(i as int + 1));
        }
        match cmp_bytes(key.as_slice(), m[i].0.as_slice()) {
            KeyCmp::Less => {
                m.insert(i, (key, val));
                proof {
                    assert(entries_view(m@) =~= s0.subrange(0, i as int) + (seq![
                        (key@, view_of(val)),
                    ] + s0.skip(i as int)));
                }
                return ;
            },
            KeyCmp::Equal => {
                m.set(i, (key, val));
                proof {
                    assert(entries_view(m@) =~= s0.subrange(0, i as int) + (seq![
                        (key@, view_of(val)),
                    ] + s0.skip(i as int).drop_first()));
                }
                return ;
            },
            KeyCmp::Greater => {
                proof {
                    assert(s0.subrange(0, i as int + 1) =~= s0.subrange(0, i as int) + seq![
                        s0[i as int],
                    ]);
                    assert(s0.subrange(0, i as int) + (seq![s0[i as int]] + spec_struct_set(
                        s0.skip(i as int + 1),
                        key@,
                        view_of(val),
                    )) =~= s0.subrange(0, i as int + 1) + spec_struct_set(
                        s0.skip(i as int + 1),
                        key@,
                        view_of(val),
                    ));
                }
                i = i + 1;
            },
        }
    }
}

} // verus!

verus! {

/// Every member of the list after an insertion is either the inserted pair or
/// a member of the original list.
pub proof fn lemma_struct_set_elems(s: Seq<(Seq<u8>, ValueView)>, k: Seq<u8>, v: ValueView)
    ensures
        forall|j: int|
            0 <= j < spec_struct_set(s, k, v).len() ==> (#[trigger] spec_struct_set(s, k, v)[j] == (
            k,
            v,
            ) || exists|i: int| 0 <= i < s.len() && s[i] == spec_struct_set(s, k, v)[j]),
    decreases s.len(),
{
    let res = spec_struct_set(s, k, v);
    if s.len() == 0 {
    } else if lex_lt(k, s[0].0) {
        assert forall|j: int| 0 <= j < res.len() implies (res[j] == (k, v) || exists|i: int|
            0 <= i < s.len() && s[i] == res[j]) by {
            if j > 0 {
                assert(s[j - 1] == res[j]);
            }
        }
    } else if k == s[0].0 {
        assert forall|j: int| 0 <= j < res.len() implies (res[j] == (k, v) || exists|i: int|
            0 <= i < s.len() && s[i] == res[j]) by {
            if j > 0 {
                assert(s[j] == res[j]);
            }
        }
    } else {
        lemma_struct_set_elems(s.drop_first(), k, v);
        let sub = spec_struct_set(s.drop_first(), k, v);
        assert forall|j: int| 0 <= j < res.len() implies (res[j] == (k, v) || exists|i: int|
            0 <= i < s.len() && s[i] == res[j]) by {
            if j == 0 {
                assert(s[0] == res[0]);
            } else {
                assert(sub[j - 1] == res[j]);
                if sub[j - 1] == (k, v) {
                } else {
                    let i = choose|i: int|
                        0 <= i < s.drop_first().len() && s.drop_first()[i] == sub[j - 1];
                    assert(s[i + 1] == res[j]);
                }
            }
        }
    }
}

/// Insertion into a key-sorted member list keeps it sorted.
pub proof fn lemma_struct_set_sorted(s: Seq<(Seq<u8>, ValueView)>, k: Seq<u8>, v: ValueView)
    requires
        entries_sorted(s),
    ensures
        entries_sorted(spec_struct_set(s, k, v)),
    decreases s.len(),
{
    let res = spec_struct_set(s, k, v);
    if s.len() == 0 {
    } else if lex_lt(k, s[0].0) {
        assert forall|i: int, j: int| 0 <= i < j < res.len() implies lex_lt(
            res[i].0,
            res[j].0,
        ) by {
            if i == 0 {
                if j > 1 {
                    crate::bytes::lemma_lex_trans(k, s[0].0, s[j - 1].0);
                }
            } else {
                assert(res[i] == s[i - 1] && res[j] == s[j - 1]);
            }
        }
    } else if k == s[0].0 {
        assert forall|i: int, j: int| 0 <= i < j < res.len() implies lex_lt(
            res[i].0,
            res[j].0,
        ) by {
            if i > 0 {
                assert(res[i] == s[i] && res[j] == s[j]);
            }
        }
    } else {
        assert(lex_lt(s[0].0, k)) by {
            if !lex_lt(s[0].0, k) {
                crate::bytes::lemma_lex_connected(k, s[0].0);
            }
        }
        assert(entries_sorted(s.drop_first())) by {
            assert forall|i: int, j: int| 0 <= i < j < s.drop_first().len() implies lex_lt(
                s.drop_first()[i].0,
                s.drop_first()[j].0,
            ) by {
                assert(s.drop_first()[i] == s[i + 1] && s.drop_first()[j] == s[j + 1]);
            }
        }
        lemma_struct_set_sorted(s.drop_first(), k, v);
        lemma_struct_set_elems(s.drop_first(), k, v);
        let sub = spec_struct_set(s.drop_first(), k, v);
        assert forall|i: int, j: int| 0 <= i < j < res.len() implies lex_lt(
            res[i].0,
            res[j].0,
        ) by {
            if i == 0 {
                assert(res[j] == sub[j - 1]);
                if sub[j - 1] == (k, v) {
                    assert(lex_lt(s[0].0, k));
                } else {
                    let w = choose|w: int|
                        0 <= w < s.drop_first().len() && s.drop_first()[w] == sub[j - 1];
                    assert(s[w + 1] == sub[j - 1]);
                }
            } else {
                assert(res[i] == sub[i - 1] && res[j] == sub[j - 1]);
            }
        }
    }
}

/// Looking up the key just inserted yields the inserted value; any other key
/// is unaffected.
pub proof fn lemma_struct_set_get(
    s: Seq<(Seq<u8>, ValueView)>,
    k: Seq<u8>,
    v: ValueView,
    k2: Seq<u8>,
)
    requires
        entries_sorted(s),
    ensures
        k2 == k ==> spec_struct_get(spec_struct_set(s, k, v), k2) == Some(v),
        k2 != k ==> spec_struct_get(spec_struct_set(s, k, v), k2) == spec_struct_get(s, k2),
    decreases s.len(),
{
    let res = spec_struct_set(s, k, v);
    if s.len() == 0 {
        assert(res =~= seq![(k, v)]);
        assert(res[0] == (k, v));
        if k2 == k {
            assert(spec_struct_get(res, k2) == Some(v));
        } else {
            assert(res.drop_first() =~= Seq::<(Seq<u8>, ValueView)>::empty());
            assert(spec_struct_get(res, k2) == spec_struct_get(res.drop_first(), k2));
            assert(spec_struct_get(res, k2) is None);
        }
    } else if lex_lt(k, s[0].0) {
        assert(res[0] == (k, v));
        assert(res.drop_first() =~= s);
        if k2 == k {
            assert(spec_struct_get(res, k2) == Some(v));
        } else {
            assert(spec_struct_get(res, k2) == spec_struct_get(s, k2));
        }
    } else if k == s[0].0 {
        assert(res[0] == (k, v));
        assert(res.drop_first() =~= s.drop_first());
        if k2 == k {
            assert(spec_struct_get(res, k2) == Some(v));
        } else {
            assert(spec_struct_get(res, k2) == spec_struct_get(s.drop_first(), k2));
            assert(spec_struct_get(s, k2) == spec_struct_get(s.drop_first(), k2));
        }
    } else {
        assert(lex_lt(s[0].0, k)) by {
            if !lex_lt(s[0].0, k) {
                crate::bytes::lemma_lex_connected(k, s[0].0);
            }
        }
        assert(entries_sorted(s.drop_first())) by {
            assert forall|i: int, j: int| 0 <= i < j < s.drop_first().len() implies lex_lt(
                s.drop_first()[i].0,
                s.drop_first()[j].0,
            ) by {
                assert(s.drop_first()[i] == s[i + 1] && s.drop_first()[j] == s[j + 1]);
            }
        }
        lemma_struct_set_get(s.drop_first(), k, v, k2);
        assert(res[0] == s[0]);
        assert(res.drop_first() =~= spec_struct_set(s.drop_first(), k, v));
    }
}

/// Inserting twice under one key keeps only the second value: the member list
/// is exactly what a single insertion of the second value gives.
pub proof fn lemma_struct_set_overwrite(
    s: Seq<(Seq<u8>, ValueView)>,
    k: Seq<u8>,
    v1: ValueView,
    v2: ValueView,
)
    ensures
        spec_struct_set(spec_struct_set(s, k, v1), k, v2) == spec_struct_set(s, k, v2),
    decreases s.len(),
{
    crate::bytes::lemma_lex_asym(k, k);
    let r1 = spec_struct_set(s, k, v1);
    if s.len() == 0 {
        assert(r1[0] == (k, v1));
        assert(spec_struct_set(r1, k, v2) =~= spec_struct_set(s, k, v2));
    } else if lex_lt(k, s[0].0) {
        assert(r1[0] == (k, v1));
        assert(r1.drop_first() =~= s);
        assert(spec_struct_set(r1, k, v2) =~= spec_struct_set(s, k, v2));
    } else if k == s[0].0 {
        assert(r1[0] == (k, v1));
        assert(r1.drop_first() =~= s.drop_first());
        assert(spec_struct_set(r1, k, v2) =~= spec_struct_set(s, k, v2));
    } else {
        lemma_struct_set_overwrite(s.drop_first(), k, v1, v2);
        assert(r1[0] == s[0]);
        assert(r1.drop_first() =~= spec_struct_set(s.drop_first(), k, v1));
        assert(spec_struct_set(r1, k, v2) =~= spec_struct_set(s, k, v2));
    }
}

/// Insertion of a well-formed value into the member list of a well-formed
/// struct yields a well-formed struct.
pub proof fn lemma_struct_set_wf(s: Seq<(Seq<u8>, ValueView)>, k: Seq<u8>, v: ValueView)
    requires
        wf_view(ValueView::Struct(s)),
        wf_view(v),
    ensures
        wf_view(ValueView::Struct(spec_struct_set(s, k, v))),
{
    lemma_struct_set_sorted(s, k, v);
    lemma_struct_set_elems(s, k, v);
    lemma_wf_members_equiv(s, 0);
    let res = spec_struct_set(s, k, v);
    assert forall|j: int| #![trigger res[j]] 0 <= j < res.len() implies wf_view(res[j].1) by {
        assert(res[j] == (k, v) || exists|i: int| 0 <= i < s.len() && s[i] == res[j]);
        if res[j] == (k, v) {
            assert(res[j].1 == v);
        } else {
            let i = choose|i: int| 0 <= i < s.len() && s[i] == res[j];
            assert(wf_view(s[i].1));
            assert(res[j].1 == s[i].1);
        }
    }
    lemma_wf_members_equiv(res, 0);
}

} // verus!

verus! {

/// Each element of a well-formed array is well formed.
pub proof fn lemma_wf_array_elem(a: Seq<ValueView>, i: int)
    requires
        wf_view(ValueView::Array(a)),
        0 <= i < a.len(),
    ensures
        wf_view(a[i]),
{
    lemma_wf_elems_equiv(a, 0);
}

} // verus!

verus! {

impl Value {
    /// A deep copy: the same tree.
    pub fn deep_clone(&self) -> (r: Value)
        ensures
            r@ == self@,
        decreases *self,
    {
        match self {
            Value::Int(i) => Value::Int(*i),
            Value::Int64(i) => Value::Int64(*i),
            Value::Bool(b) => Value::Bool(*b),
            Value::String(s) => Value::String(crate::bytes::clone_bytes(s.as_slice())),
            Value::Double(t) => Value::Double(crate::bytes::clone_bytes(t.as_slice())),
            Value::DateTime(dt) => Value::DateTime(*dt),
            Value::Base64(b) => Value::Base64(crate::bytes::clone_bytes(b.as_slice())),
            Value::Struct(m) => {
                let mut out: Vec<(Vec<u8>, Value)> = Vec::new();
                let mut i: usize = 0;
                proof {
                    assert(entries_view(out@) =~= entries_view(m@).take(0));
                }
                while i < m.len()
                    invariant
                        0 <= i <= m@.len(),
                        *self == Value::Struct(*m),
                        out@.len() == i,
                        entries_view(out@) == entries_view(m@).take(i as int),
                    decreases m@.len() - i,
                {
                    proof {
                        assert(decreases_to!(*self => (*self)->Struct_0));
                        assert((*self)->Struct_0 == *m);
                        assert(decreases_to!(*m => m@));
                        assert(decreases_to!(m@ => m@[i as int]));
                        assert(decreases_to!(m@[i as int] => m@[i as int].1));
                    }
                    let k = crate::bytes::clone_bytes(m[i].0.as_slice());
                    let cv = m[i].1.deep_clone();
                    out.push((k, cv));
                    proof {
                        assert(out@.len() == i + 1);
                        assert(out@[i as int] == (k, cv));
                        assert(k@ == m@[i as int].0@);
                        assert(view_of(cv) == view_of(m@[i as int].1));
                        assert(entries_view(out@) =~= entries_view(m@).take(i + 1));
                    }
                    i = i + 1;
                }
                proof {
                    assert(entries_view(m@).take(m@.len() as int) =~= entries_view(m@));
                }
                Value::Struct(out)
            },
            Value::Array(a) => {
                let mut out: Vec<Value> = Vec::new();
                let mut i: usize = 0;
                proof {
                    assert(elems_view(out@) =~= elems_view(a@).take(0));
                }
                while i < a.len()
                    invariant
                        0 <= i <= a@.len(),
                        *self == Value::Array(*a),
                        out@.len() == i,
                        elems_view(out@) == elems_view(a@).take(i as int),
                    decreases a@.len() - i,
                {
                    proof {
                        assert(decreases_to!(*self => (*self)->Array_0));
                        assert((*self)->Array_0 == *a);
                        assert(decreases_to!(*a => a@));
                        assert(decreases_to!(a@ => a@[i as int]));
                    }
                    let cv = a[i].deep_clone();
                    out.push(cv);
                    proof {
                        assert(out@.len() == i + 1);
                        assert(out@[i as int] == cv);
                        assert(view_of(cv) == view_of(a@[i as int]));
                        assert(elems_view(out@) =~= elems_view(a@).take(i + 1));
                    }
                    i = i + 1;
                }
                proof {
                    assert(elems_view(a@).take(a@.len() as int) =~= elems_view(a@));
                }
                Value::Array(out)
            },
            Value::Nil => Value::Nil,
        }
    }
}

} // verus!

verus! {

/// A trait only nameable inside this crate, sealing `Index`.
pub trait Sealed {
}

/// A type that can index into a `Value`: a byte-string key for a struct,
/// a position for an array.
pub trait Index: Sealed {
    /// The inner value this index reaches in `v`, if any.
    spec fn found(&self, v: ValueView) -> Option<ValueView>;

    /// The inner value of `value` this index reaches, if any.
    fn lookup<'v>(&self, value: &'v Value) -> (r: Option<&'v Value>)
        ensures
            r matches Some(x) ==> self.found(value@) == Some(x@),
            r is None <==> self.found(value@) is None,
    ;
}

impl Sealed for usize {

}

impl Index for usize {
    open spec fn found(&self, v: ValueView) -> Option<ValueView> {
        match v {
            ValueView::Array(a) => {
                if 0 <= *self < a.len() {
                    Some(a[*self as int])
                } else {
                    None
                }
            },
            _ => None,
        }
    }

    fn lookup<'v>(&self, value: &'v Value) -> (r: Option<&'v Value>)
        ensures
            r matches Some(x) ==> self.found(value@) == Some(x@),
            r is None <==> self.found(value@) is None,
    {
        match value {
            Value::Array(a) => {
                if *self < a.len() {
                    let elem = &a[*self];
                    proof {
                        assert(elems_view(a@)[*self as int] == view_of(a@[*self as int]));
                    }
                    Some(elem)
                } else {
                    None
                }
            },
            _ => None,
        }
    }
}

impl Sealed for str {

}

impl Index for str {
    open spec fn found(&self, v: ValueView) -> Option<ValueView> {
        match v {
            ValueView::Struct(m) => spec_struct_get(
                m,
                vstd::string::StringSliceAdditionalSpecFns::spec_bytes(self),
            ),
            _ => None,
        }
    }

    fn lookup<'v>(&self, value: &'v Value) -> (r: Option<&'v Value>)
        ensures
            r matches Some(x) ==> self.found(value@) == Some(x@),
            r is None <==> self.found(value@) is None,
    {
        match value {
            Value::Struct(m) => struct_get(m, self.as_bytes()),
            _ => None,
        }
    }
}

impl Value {
    /// Returns an inner struct or array value reached by `index`: the
    /// array element at a position, or the struct member under a key.
    /// `None` where the member does not exist or `self` is neither a
    /// struct nor an array.
    pub fn get<I: Index + ?Sized>(&self, index: &I) -> (r: Option<&Value>)
        ensures
            r matches Some(x) ==> index.found(self@) == Some(x@),
            r is None <==> index.found(self@) is None,
    {
        index.lookup(self)
    }
}

} // verus!
