//! The value encoder: renders a `Value` as exactly one well-formed
//! `<value>...</value>` element, mirroring line for line what the spec-level
//! `encode_value` says.

use vstd::prelude::*;

use crate::b64::{b64_encode, b64_of};
use crate::datetime::{dt_fmt_ok, format_datetime, format_dt};
use crate::escape::{escape_spec, escape_xml};
use crate::numtext::{dec_int, push_dec_i64};
use crate::value::{entries_view, view_of, Value, ValueView};

verus! {

pub open spec fn tn_value() -> Seq<u8> {
    seq![118u8, 97u8, 108u8, 117u8, 101u8]  // value
}

pub open spec fn tn_i4() -> Seq<u8> {
    seq![105u8, 52u8]  // i4
}

pub open spec fn tn_i8() -> Seq<u8> {
    seq![105u8, 56u8]  // i8
}

pub open spec fn tn_boolean() -> Seq<u8> {
    seq![98u8, 111u8, 111u8, 108u8, 101u8, 97u8, 110u8]  // boolean
}

pub open spec fn tn_string() -> Seq<u8> {
    seq![115u8, 116u8, 114u8, 105u8, 110u8, 103u8]  // string
}

pub open spec fn tn_double() -> Seq<u8> {
    seq![100u8, 111u8, 117u8, 98u8, 108u8, 101u8]  // double
}

pub open spec fn tn_datetime() -> Seq<u8> {
    seq![
        100u8,
        97u8,
        116u8,
        101u8,
        84u8,
        105u8,
        109u8,
        101u8,
        46u8,
        105u8,
        115u8,
        111u8,
        56u8,
        54u8,
        48u8,
        49u8,
    ]  // dateTime.iso8601
}

pub open spec fn tn_base64() -> Seq<u8> {
    seq![98u8, 97u8, 115u8, 101u8, 54u8, 52u8]  // base64
}

pub open spec fn tn_struct() -> Seq<u8> {
    seq![115u8, 116u8, 114u8, 117u8, 99u8, 116u8]  // struct
}

pub open spec fn tn_member() -> Seq<u8> {
    seq![109u8, 101u8, 109u8, 98u8, 101u8, 114u8]  // member
}

pub open spec fn tn_name() -> Seq<u8> {
    seq![110u8, 97u8, 109u8, 101u8]  // name
}

pub open spec fn tn_array() -> Seq<u8> {
    seq![97u8, 114u8, 114u8, 97u8, 121u8]  // array
}

pub open spec fn tn_data() -> Seq<u8> {
    seq![100u8, 97u8, 116u8, 97u8]  // data
}

pub open spec fn tn_nil() -> Seq<u8> {
    seq![110u8, 105u8, 108u8]  // nil
}

/// `<name>` and a newline.
pub open spec fn open_nl(n: Seq<u8>) -> Seq<u8> {
    seq![60u8] + n + seq![62u8, 10u8]
}

/// `</name>` and a newline.
pub open spec fn close_nl(n: Seq<u8>) -> Seq<u8> {
    seq![60u8, 47u8] + n + seq![62u8, 10u8]
}

/// `<name>content</name>` and a newline.
pub open spec fn elem_line(n: Seq<u8>, c: Seq<u8>) -> Seq<u8> {
    seq![60u8] + n + seq![62u8] + c + seq![60u8, 47u8] + n + seq![62u8, 10u8]
}

/// A value the encoder can write: every date in the tree is a calendar
/// date within the formatter's bounds.
pub open spec fn encodable(v: ValueView) -> bool
    decreases v, 0int,
{
    match v {
        ValueView::DateTime(dt) => dt_fmt_ok(dt),
        ValueView::Struct(m) => encodable_members(m, 0),
        ValueView::Array(a) => encodable_elems(a, 0),
        _ => true,
    }
}

/// Every member value from index `i` on is encodable.
pub open spec fn encodable_members(m: Seq<(Seq<u8>, ValueView)>, i: int) -> bool
    decreases m, m.len() - i,
{
    if 0 <= i < m.len() {
        encodable(m[i].1) && encodable_members(m, i + 1)
    } else {
        true
    }
}

/// Every element from index `i` on is encodable.
pub open spec fn encodable_elems(a: Seq<ValueView>, i: int) -> bool
    decreases a, a.len() - i,
{
    if 0 <= i < a.len() {
        encodable(a[i]) && encodable_elems(a, i + 1)
    } else {
        true
    }
}

/// Each member value of an encodable struct is itself encodable.
pub proof fn lemma_encodable_member(m: Seq<(Seq<u8>, ValueView)>, j: int, i: int)
    requires
        encodable_members(m, j),
        0 <= j <= i < m.len(),
    ensures
        encodable(m[i].1),
    decreases i - j,
{
    if j < i {
        lemma_encodable_member(m, j + 1, i);
    }
}

/// Each element of an encodable array is itself encodable.
pub proof fn lemma_encodable_elem(a: Seq<ValueView>, j: int, i: int)
    requires
        encodable_elems(a, j),
        0 <= j <= i < a.len(),
    ensures
        encodable(a[i]),
    decreases i - j,
{
    if j < i {
        lemma_encodable_elem(a, j + 1, i);
    }
}

/// The bytes written for one `<value>` element.
pub open spec fn encode_value(v: ValueView) -> Seq<u8>
    decreases v, 0int,
{
    let inner = match v {
        ValueView::Int(i) => elem_line(tn_i4(), dec_int(i)),
        ValueView::Int64(i) => elem_line(tn_i8(), dec_int(i)),
        ValueView::Bool(b) => elem_line(
            tn_boolean(),
            if b {
                seq![49u8]
            } else {
                seq![48u8]
            },
        ),
        ValueView::String(s) => elem_line(tn_string(), escape_spec(s)),
        ValueView::Double(t) => elem_line(tn_double(), t),
        ValueView::DateTime(dt) => elem_line(tn_datetime(), format_dt(dt)),
        ValueView::Base64(b) => elem_line(tn_base64(), b64_of(b)),
        ValueView::Struct(m) => open_nl(tn_struct()) + encode_members(m, 0) + close_nl(tn_struct()),
        ValueView::Array(a) => open_nl(tn_array()) + open_nl(tn_data()) + encode_elems(a, 0)
            + close_nl(tn_data()) + close_nl(tn_array()),
        ValueView::Nil => seq![60u8] + tn_nil() + seq![47u8, 62u8, 10u8],
    };
    open_nl(tn_value()) + inner + close_nl(tn_value())
}

/// The bytes written for the members of a struct, from index `i` on, each
/// one `<member>` with its escaped `<name>` and its value.
pub open spec fn encode_members(m: Seq<(Seq<u8>, ValueView)>, i: int) -> Seq<u8>
    decreases m, m.len() - i,
{
    if 0 <= i < m.len() {
        open_nl(tn_member()) + elem_line(tn_name(), escape_spec(m[i].0)) + encode_value(m[i].1)
            + close_nl(tn_member()) + encode_members(m, i + 1)
    } else {
        Seq::empty()
    }
}

/// The bytes written for the elements of an array, from index `i` on.
pub open spec fn encode_elems(a: Seq<ValueView>, i: int) -> Seq<u8>
    decreases a, a.len() - i,
{
    if 0 <= i < a.len() {
        encode_value(a[i]) + encode_elems(a, i + 1)
    } else {
        Seq::empty()
    }
}

/// Appends a byte string.
pub fn push_slice(out: &mut Vec<u8>, s: &[u8])
    ensures
        final (out)@ == old(out)@ + s@,
{
    let mut i: usize = 0;
    proof {
        assert(old(out)@ + s@.take(0) =~= old(out)@);
    }
    while i < s.len()
        invariant
            0 <= i <= s@.len(),
            out@ == old(out)@ + s@.take(i as int),
        decreases s@.len() - i,
    {
        out.push(s[i]);
        proof {
            assert(s@.take(i + 1) =~= s@.take(i as int).push(s@[i as int]));
            assert(old(out)@ + s@.take(i + 1) =~= (old(out)@ + s@.take(i as int)).push(
                s@[i as int],
            ));
        }
        i = i + 1;
    }
    proof {
        assert(s@.take(s@.len() as int) =~= s@);
    }
}

/// Writes `<name>` and a newline.
fn push_open_nl(out: &mut Vec<u8>, name: &[u8])
    ensures
        final (out)@ == old(out)@ + open_nl(name@),
{
    out.push(60);
    push_slice(out, name);
    out.push(62);
    out.push(10);
    proof {
        assert(final (out)@ =~= old(out)@ + open_nl(name@));
    }
}

/// Writes `</name>` and a newline.
fn push_close_nl(out: &mut Vec<u8>, name: &[u8])
    ensures
        final (out)@ == old(out)@ + close_nl(name@),
{
    out.push(60);
    out.push(47);
    push_slice(out, name);
    out.push(62);
    out.push(10);
    proof {
        assert(final (out)@ =~= old(out)@ + close_nl(name@));
    }
}

/// Writes `<name>content</name>` and a newline.
fn push_elem_line(out: &mut Vec<u8>, name: &[u8], content: &[u8])
    ensures
        final (out)@ == old(out)@ + elem_line(name@, content@),
{
    out.push(60);
    push_slice(out, name);
    out.push(62);
    push_slice(out, content);
    out.push(60);
    out.push(47);
    push_slice(out, name);
    out.push(62);
    out.push(10);
    proof {
        assert(final (out)@ =~= old(out)@ + elem_line(name@, content@));
    }
}

impl Value {
    /// Appends this value as one `<value>` element to `out`.
    #[verifier::rlimit(100)]
    pub fn write_as_xml(&self, out: &mut Vec<u8>)
        requires
            encodable(self@),
        ensures
            final (out)@ == old(out)@ + encode_value(self@),
        decreases *self,
    {
        let vn: [u8; 5] = [118, 97, 108, 117, 101];
        proof {
            assert(vn@ =~= tn_value());
        }
        push_open_nl(out, vn.as_slice());
        match self {
            Value::Int(i) => {
                let n: [u8; 2] = [105, 52];
                proof {
                    assert(n@ =~= tn_i4());
                }
                let mut c: Vec<u8> = Vec::new();
                push_dec_i64(&mut c, *i as i64);
                push_elem_line(out, n.as_slice(), c.as_slice());
            },
            Value::Int64(i) => {
                let n: [u8; 2] = [105, 56];
                proof {
                    assert(n@ =~= tn_i8());
                }
                let mut c: Vec<u8> = Vec::new();
                push_dec_i64(&mut c, *i);
                push_elem_line(out, n.as_slice(), c.as_slice());
            },
            Value::Bool(b) => {
                let n: [u8; 7] = [98, 111, 111, 108, 101, 97, 110];
                proof {
                    assert(n@ =~= tn_boolean());
                }
                let mut c: Vec<u8> = Vec::new();
                if *b {
                    c.push(49);
                } else {
                    c.push(48);
                }
                proof {
                    if *b {
                        assert(c@ =~= seq![49u8]);
                    } else {
                        assert(c@ =~= seq![48u8]);
                    }
                }
                push_elem_line(out, n.as_slice(), c.as_slice());
            },
            Value::String(s) => {
                let n: [u8; 6] = [115, 116, 114, 105, 110, 103];
                proof {
                    assert(n@ =~= tn_string());
                }
                let c = escape_xml(s.as_slice());
                push_elem_line(out, n.as_slice(), c.as_slice());
            },
            Value::Double(t) => {
                let n: [u8; 6] = [100, 111, 117, 98, 108, 101];
                proof {
                    assert(n@ =~= tn_double());
                }
                push_elem_line(out, n.as_slice(), t.as_slice());
            },
            Value::DateTime(dt) => {
                let n: [u8; 16] = [
                    100,
                    97,
                    116,
                    101,
                    84,
                    105,
                    109,
                    101,
                    46,
                    105,
                    115,
                    111,
                    56,
                    54,
                    48,
                    49,
                ];
                proof {
                    assert(n@ =~= tn_datetime());
                }
                let c = format_datetime(dt);
                push_elem_line(out, n.as_slice(), c.as_slice());
            },
            Value::Base64(b) => {
                let n: [u8; 6] = [98, 97, 115, 101, 54, 52];
                proof {
                    assert(n@ =~= tn_base64());
                }
                let c = b64_encode(b.as_slice());
                push_elem_line(out, n.as_slice(), c.as_slice());
            },
            Value::Struct(m) => {
                let n: [u8; 6] = [115, 116, 114, 117, 99, 116];
                proof {
                    assert(n@ =~= tn_struct());
                }
                push_open_nl(out, n.as_slice());
                let ghost ev = entries_view(m@);
                let ghost mid = out@;
                let mn: [u8; 6] = [109, 101, 109, 98, 101, 114];
                let nn: [u8; 4] = [110, 97, 109, 101];
                proof {
                    assert(mn@ =~= tn_member());
                    assert(nn@ =~= tn_name());
                    assert(*self == Value::Struct(*m));
                    assert(self@ == ValueView::Struct(ev));
                    assert(encodable_members(ev, 0));
                }
                let mut idx: usize = 0;
                while idx < m.len()
                    invariant
                        0 <= idx <= m@.len(),
                        ev == entries_view(m@),
                        ev.len() == m@.len(),
                        mn@ == tn_member(),
                        nn@ == tn_name(),
                        encodable_members(ev, 0),
                        *self == Value::Struct(*m),
                        out@ + encode_members(ev, idx as int) == mid + encode_members(ev, 0),
                    decreases m@.len() - idx,
                {
                    let ghost out0 = out@;
                    push_open_nl(out, mn.as_slice());
                    let esc = escape_xml(m[idx].0.as_slice());
                    push_elem_line(out, nn.as_slice(), esc.as_slice());
                    proof {
                        assert(ev[idx as int] == (m@[idx as int].0@, view_of(m@[idx as int].1)));
                        lemma_encodable_member(ev, 0, idx as int);
                        assert(encodable(view_of(m@[idx as int].1)));
                        assert((*self)->Struct_0 == *m);
                        assert(decreases_to!(*self => (*self)->Struct_0));
                        assert(decreases_to!(*m => m@));
                        assert(decreases_to!(m@ => m@[idx as int]));
                        assert(decreases_to!(m@[idx as int] => m@[idx as int].1));
                    }
                    m[idx].1.write_as_xml(out);
                    push_close_nl(out, mn.as_slice());
                    proof {
                        assert(out@ =~= out0 + (open_nl(tn_member()) + elem_line(
                            tn_name(),
                            escape_spec(ev[idx as int].0),
                        ) + encode_value(ev[idx as int].1) + close_nl(tn_member())));
                        assert(out@ + encode_members(ev, idx + 1) =~= out0 + encode_members(
                            ev,
                            idx as int,
                        ));
                    }
                    idx = idx + 1;
                }
                proof {
                    assert(encode_members(ev, idx as int) =~= Seq::<u8>::empty());
                    assert(out@ =~= mid + encode_members(ev, 0));
                }
                push_close_nl(out, n.as_slice());
            },
            Value::Array(a) => {
                let n: [u8; 5] = [97, 114, 114, 97, 121];
                let dn: [u8; 4] = [100, 97, 116, 97];
                proof {
                    assert(n@ =~= tn_array());
                    assert(dn@ =~= tn_data());
                }
                push_open_nl(out, n.as_slice());
                push_open_nl(out, dn.as_slice());
                let ghost ev = crate::value::elems_view(a@);
                let ghost mid = out@;
                proof {
                    assert(*self == Value::Array(*a));
                    assert(self@ == ValueView::Array(ev));
                    assert(encodable_elems(ev, 0));
                }
                let mut idx: usize = 0;
                while idx < a.len()
                    invariant
                        0 <= idx <= a@.len(),
                        ev == crate::value::elems_view(a@),
                        ev.len() == a@.len(),
                        encodable_elems(ev, 0),
                        *self == Value::Array(*a),
                        out@ + encode_elems(ev, idx as int) == mid + encode_elems(ev, 0),
                    decreases a@.len() - idx,
                {
                    let ghost out0 = out@;
                    proof {
                        assert(ev[idx as int] == view_of(a@[idx as int]));
                        assert((*self)->Array_0 == *a);
                        assert(decreases_to!(*self => (*self)->Array_0));
                        assert(decreases_to!(*a => a@));
                        assert(decreases_to!(a@ => a@[idx as int]));
                    }
                    let elem = &a[idx];
                    proof {
                        lemma_encodable_elem(ev, 0, idx as int);
                        assert(*elem == a@[idx as int]);
                        assert(elem@ == view_of(a@[idx as int]));
                        assert(encodable(elem@));
                    }
                    elem.write_as_xml(out);
                    proof {
                        assert(out@ + encode_elems(ev, idx + 1) =~= out0 + encode_elems(
                            ev,
                            idx as int,
                        ));
                    }
                    idx = idx + 1;
                }
                proof {
                    assert(encode_elems(ev, idx as int) =~= Seq::<u8>::empty());
                    assert(out@ =~= mid + encode_elems(ev, 0));
                }
                push_close_nl(out, dn.as_slice());
                push_close_nl(out, n.as_slice());
            },
            Value::Nil => {
                let n: [u8; 3] = [110, 105, 108];
                proof {
                    assert(n@ =~= tn_nil());
                }
                out.push(60);
                push_slice(out, n.as_slice());
                out.push(47);
                out.push(62);
                out.push(10);
            },
        }
        push_close_nl(out, vn.as_slice());
        proof {
            assert(final (out)@ =~= old(out)@ + encode_value(self@));
        }
    }
}

} // verus!

verus! {

impl Value {
    /// Decides whether the encoder can write this value: every date in the
    /// tree must be a calendar date within the formatter's bounds.
    pub fn is_encodable(&self) -> (r: bool)
        ensures
            r == encodable(self@),
        decreases *self,
    {
        match self {
            Value::DateTime(dt) => {
                match dt.date {
                    crate::value::Date::Ymd { year, .. } => {
                        year > i32::MIN && dt.time.tz_offset_hours > i32::MIN
                            && dt.time.tz_offset_minutes > i32::MIN
                    },
                    _ => false,
                }
            },
            Value::Struct(m) => {
                let ghost ev = entries_view(m@);
                let mut i: usize = 0;
                while i < m.len()
                    invariant
                        0 <= i <= m@.len(),
                        *self == Value::Struct(*m),
                        ev == entries_view(m@),
                        ev.len() == m@.len(),
                        encodable_members(ev, 0) == encodable_members(ev, i as int),
                    decreases m@.len() - i,
                {
                    proof {
                        assert(decreases_to!(*self => (*self)->Struct_0));
                        assert((*self)->Struct_0 == *m);
                        assert(decreases_to!(*m => m@));
                        assert(decreases_to!(m@ => m@[i as int]));
                        assert(decreases_to!(m@[i as int] => m@[i as int].1));
                    }
                    if !m[i].1.is_encodable() {
                        proof {
                            assert(ev[i as int].1 == view_of(m@[i as int].1));
                            assert(!encodable_members(ev, i as int));
                        }
                        return false;
                    }
                    proof {
                        assert(ev[i as int].1 == view_of(m@[i as int].1));
                    }
                    i = i + 1;
                }
                proof {
                    assert(encodable_members(ev, i as int));
                }
                true
            },
            Value::Array(a) => {
                let ghost ev = crate::value::elems_view(a@);
                let mut i: usize = 0;
                while i < a.len()
                    invariant
                        0 <= i <= a@.len(),
                        *self == Value::Array(*a),
                        ev == crate::value::elems_view(a@),
                        ev.len() == a@.len(),
                        encodable_elems(ev, 0) == encodable_elems(ev, i as int),
                    decreases a@.len() - i,
                {
                    proof {
                        assert(decreases_to!(*self => (*self)->Array_0));
                        assert((*self)->Array_0 == *a);
                        assert(decreases_to!(*a => a@));
                        assert(decreases_to!(a@ => a@[i as int]));
                    }
                    let elem = &a[i];
                    proof {
                        assert(*elem == a@[i as int]);
                        assert(ev[i as int] == view_of(a@[i as int]));
                    }
                    if !elem.is_encodable() {
                        proof {
                            assert(!encodable_elems(ev, i as int));
                        }
                        return false;
                    }
                    i = i + 1;
                }
                proof {
                    assert(encodable_elems(ev, i as int));
                }
                true
            },
            _ => true,
        }
    }
}

} // verus!
