//! The `<fault>` record: an application-level error code and message, and
//! its bidirectional mapping to and from a two-member struct value.

use vstd::prelude::*;

use crate::bytes::{clone_bytes, lemma_lex_from_diff, lex_lt};
use crate::ext::{utf8_lossy, utf8_lossy_of, utf8_to_string};
use crate::value::{
    entries_sorted, spec_struct_get, struct_get, view_of, wf_view, Value, ValueView,
};

verus! {

/// A `<fault>` response, indicating that a request failed.
///
/// The XML-RPC specification requires that a `faultCode` and `faultString`
/// are returned in the `<fault>` case, further describing the error.
#[derive(Debug, PartialEq, Eq)]
pub struct Fault {
    /// `faultCode` received from the server.
    code: i32,
    /// Undecoded `faultString` sent by the server; it may hold any bytes.
    raw_string: Vec<u8>,
}

/// The model of a fault: its code and the raw bytes of its message.
pub ghost struct FaultView {
    pub code: int,
    pub string: Seq<u8>,
}

impl View for Fault {
    type V = FaultView;

    closed spec fn view(&self) -> FaultView {
        FaultView { code: self.code as int, string: self.raw_string@ }
    }
}

/// The bytes of `faultCode`.
pub open spec fn fault_code_key() -> Seq<u8> {
    seq![102u8, 97u8, 117u8, 108u8, 116u8, 67u8, 111u8, 100u8, 101u8]
}

/// The bytes of `faultString`.
pub open spec fn fault_string_key() -> Seq<u8> {
    seq![102u8, 97u8, 117u8, 108u8, 116u8, 83u8, 116u8, 114u8, 105u8, 110u8, 103u8]
}

/// `faultCode` orders strictly below `faultString`.
pub proof fn lemma_fault_keys_ordered()
    ensures
        lex_lt(fault_code_key(), fault_string_key()),
        fault_code_key() != fault_string_key(),
{
    lemma_lex_from_diff(fault_code_key(), fault_string_key(), 5);
    assert(fault_code_key()[5] != fault_string_key()[5]);
}

/// The fault a value stands for: the value must be a struct with exactly
/// two members, an `Int` under `faultCode` and a `String` under
/// `faultString`; any other shape stands for no fault.
pub open spec fn fault_of_value(v: ValueView) -> Option<FaultView> {
    match v {
        ValueView::Struct(m) => {
            if m.len() != 2 {
                None
            } else {
                match (spec_struct_get(m, fault_code_key()), spec_struct_get(
                    m,
                    fault_string_key(),
                )) {
                    (Some(ValueView::Int(code)), Some(ValueView::String(s))) => Some(
                        FaultView { code, string: s },
                    ),
                    _ => None,
                }
            }
        },
        _ => None,
    }
}

/// The two-member struct value a fault maps to.
pub open spec fn fault_to_value(f: FaultView) -> ValueView {
    ValueView::Struct(
        seq![
            (fault_code_key(), ValueView::Int(f.code)),
            (fault_string_key(), ValueView::String(f.string)),
        ],
    )
}

/// Round-trip: every fault is recovered exactly from the value it maps to.
pub proof fn lemma_fault_roundtrip(f: FaultView)
    ensures
        fault_of_value(fault_to_value(f)) == Some(f),
{
    lemma_fault_keys_ordered();
    let m = seq![
        (fault_code_key(), ValueView::Int(f.code)),
        (fault_string_key(), ValueView::String(f.string)),
    ];
    assert(m.drop_first() =~= seq![(fault_string_key(), ValueView::String(f.string))]);
    assert(spec_struct_get(m, fault_code_key()) == Some(ValueView::Int(f.code)));
    assert(spec_struct_get(m, fault_string_key()) == spec_struct_get(
        m.drop_first(),
        fault_string_key(),
    ));
    assert(spec_struct_get(m.drop_first(), fault_string_key()) == Some(
        ValueView::String(f.string),
    ));
}

/// The value a fault maps to is well formed.
pub proof fn lemma_fault_to_value_wf(f: FaultView)
    ensures
        wf_view(fault_to_value(f)),
{
    lemma_fault_keys_ordered();
    let m = seq![
        (fault_code_key(), ValueView::Int(f.code)),
        (fault_string_key(), ValueView::String(f.string)),
    ];
    assert(entries_sorted(m));
    assert(wf_view(m[0].1));
    assert(wf_view(m[1].1));
    crate::value::lemma_wf_members_equiv(m, 0);
}

impl Fault {
    /// Creates a new `Fault` from an error code and a UTF-8 message.
    pub fn new(code: i32, string: String) -> (r: Fault)
        ensures
            r@.code == code as int,
            r@.string == vstd::utf8::encode_utf8(string@),
    {
        let raw = string.as_str().as_bytes_vec();
        Fault { code, raw_string: raw }
    }

    /// Creates a `Fault` from an error code and a raw message.
    pub fn from_raw_string(code: i32, string: Vec<u8>) -> (r: Fault)
        ensures
            r@.code == code as int,
            r@.string == string@,
    {
        Fault { code, raw_string: string }
    }

    /// Returns the fault code.
    ///
    /// The meaning of this code is not specified by XML-RPC and depends on
    /// the service spoken to.
    pub fn code(&self) -> (r: i32)
        ensures
            r as int == self@.code,
    {
        self.code
    }

    /// Returns the error message as a `String`, if it is valid UTF-8;
    /// `None` otherwise.
    pub fn string(&self) -> (r: Option<String>)
        ensures
            r matches Some(s) ==> vstd::utf8::valid_utf8(self@.string) && s@
                == vstd::utf8::decode_utf8(self@.string),
            r is None <==> !vstd::utf8::valid_utf8(self@.string),
    {
        utf8_to_string(self.raw_string.as_slice())
    }

    /// Returns the error message, replacing invalid byte sequences with the
    /// replacement character.
    pub fn string_lossy(&self) -> (r: String)
        ensures
            r@ == utf8_lossy_of(self@.string),
    {
        utf8_lossy(self.raw_string.as_slice())
    }

    /// Returns the `faultString` field as raw bytes.
    pub fn string_as_bytes(&self) -> (r: &[u8])
        ensures
            r@ == self@.string,
    {
        self.raw_string.as_slice()
    }

    /// Creates a `Fault` from a `Value`.
    ///
    /// The `Value` must be a struct with a `faultCode` and a `faultString`
    /// member and no others; `None` is returned for every other shape.
    pub fn from_value(value: &Value) -> (r: Option<Fault>)
        ensures
            r matches Some(f) ==> fault_of_value(value@) == Some(f@),
            r is None <==> fault_of_value(value@) is None,
    {
        let m = match value.as_struct() {
            Some(m) => m,
            None => {
                return None;
            },
        };
        if m.len() != 2 {
            return None;
        }
        let kc: [u8; 9] = [102, 97, 117, 108, 116, 67, 111, 100, 101];
        let ks: [u8; 11] = [102, 97, 117, 108, 116, 83, 116, 114, 105, 110, 103];
        proof {
            assert(kc@ =~= fault_code_key());
            assert(ks@ =~= fault_string_key());
        }
        let code: i32 = match struct_get(m, kc.as_slice()) {
            Some(v) => match v.as_i32() {
                Some(c) => c,
                None => {
                    return None;
                },
            },
            None => {
                return None;
            },
        };
        let s: &Vec<u8> = match struct_get(m, ks.as_slice()) {
            Some(v) => match v.as_str() {
                Some(s) => s,
                None => {
                    return None;
                },
            },
            None => {
                return None;
            },
        };
        Some(Fault { code, raw_string: clone_bytes(s.as_slice()) })
    }

    /// Turns this `Fault` into an equivalent `Value`: a struct with exactly
    /// the `faultCode` and `faultString` members. `Fault::from_value`
    /// recovers the fault from it.
    pub fn to_value(&self) -> (r: Value)
        ensures
            r@ == fault_to_value(self@),
            wf_view(r@),
            fault_of_value(r@) == Some(self@),
    {
        let kc: [u8; 9] = [102, 97, 117, 108, 116, 67, 111, 100, 101];
        let ks: [u8; 11] = [102, 97, 117, 108, 116, 83, 116, 114, 105, 110, 103];
        proof {
            assert(kc@ =~= fault_code_key());
            assert(ks@ =~= fault_string_key());
        }
        let mut members: Vec<(Vec<u8>, Value)> = Vec::new();
        members.push((clone_bytes(kc.as_slice()), Value::Int(self.code)));
        members.push((clone_bytes(ks.as_slice()), Value::String(clone_bytes(
            self.raw_string.as_slice(),
        ))));
        let r = Value::Struct(members);
        proof {
            assert(crate::value::entries_view(members@) =~= seq![
                (fault_code_key(), ValueView::Int(self@.code)),
                (fault_string_key(), ValueView::String(self@.string)),
            ]);
            assert(r@ == fault_to_value(self@));
            lemma_fault_to_value_wf(self@);
            lemma_fault_roundtrip(self@);
        }
        r
    }
}

} // verus!
