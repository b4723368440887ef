//! Escaping of text for XML character data, and the inverse decoding of
//! entity and character references.
//!
//! Output escapes exactly `&` and `<`; `>` needs no escaping in character
//! data. Decoding accepts the five standard named entities and decimal and
//! hexadecimal character references.

use vstd::prelude::*;

verus! {

pub const AMP: u8 = 38;

pub const LT: u8 = 60;

pub const GT: u8 = 62;

pub const SEMI: u8 = 59;

pub const APOS: u8 = 39;

pub const QUOT: u8 = 34;

pub const HASH: u8 = 35;

/// How a single byte is written in escaped character data.
pub open spec fn escape_byte(b: u8) -> Seq<u8> {
    if b == AMP {
        seq![AMP, 97u8, 109u8, 112u8, SEMI]  // &amp;
    } else if b == LT {
        seq![AMP, 108u8, 116u8, SEMI]  // &lt;
    } else {
        seq![b]
    }
}

/// The escaped form of a byte string.
pub open spec fn escape_spec(s: Seq<u8>) -> Seq<u8>
    decreases s.len(),
{
    if s.len() == 0 {
        Seq::empty()
    } else {
        escape_byte(s[0]) + escape_spec(s.drop_first())
    }
}

pub proof fn lemma_escape_push(s: Seq<u8>, b: u8)
    ensures
        escape_spec(s.push(b)) == escape_spec(s) + escape_byte(b),
    decreases s.len(),
{
    if s.len() == 0 {
        assert(s.push(b)[0] == b);
        assert(s.push(b).drop_first() =~= Seq::<u8>::empty());
        assert(escape_spec(s.push(b)) == escape_byte(b) + escape_spec(Seq::<u8>::empty()));
        assert(escape_byte(b) + Seq::<u8>::empty() =~= Seq::<u8>::empty() + escape_byte(b));
    } else {
        lemma_escape_push(s.drop_first(), b);
        assert(s.push(b)[0] == s[0]);
        assert(s.push(b).drop_first() =~= s.drop_first().push(b));
        assert(escape_spec(s.push(b)) == escape_byte(s[0]) + (escape_spec(s.drop_first())
            + escape_byte(b)));
        assert(escape_byte(s[0]) + (escape_spec(s.drop_first()) + escape_byte(b)) =~= (escape_byte(
            s[0],
        ) + escape_spec(s.drop_first())) + escape_byte(b));
    }
}

/// Escapes a byte string for use as XML character data. `&` becomes `&amp;`
/// and `<` becomes `&lt;`; everything else is unchanged.
pub fn escape_xml(s: &[u8]) -> (r: Vec<u8>)
    ensures
        r@ == escape_spec(s@),
{
    let mut out: Vec<u8> = Vec::new();
    let mut i: usize = 0;
    proof {
        assert(s@.take(0) =~= Seq::<u8>::empty());
    }
    while i < s.len()
        invariant
            0 <= i <= s@.len(),
            out@ == escape_spec(s@.take(i as int)),
        decreases s@.len() - i,
    {
        let b = s[i];
        if b == AMP {
            out.push(AMP);
            out.push(97);
            out.push(109);
            out.push(112);
            out.push(SEMI);
        } else if b == LT {
            out.push(AMP);
            out.push(108);
            out.push(116);
            out.push(SEMI);
        } else {
            out.push(b);
        }
        proof {
            lemma_escape_push(s@.take(i as int), b);
            assert(s@.take(i + 1) =~= s@.take(i as int).push(s@[i as int]));
            assert(out@ =~= escape_spec(s@.take(i as int)) + escape_byte(b));
        }
        i = i + 1;
    }
    proof {
        assert(s@.take(s@.len() as int) =~= s@);
    }
    out
}

/// The UTF-8 encoding of a Unicode code point.
pub open spec fn utf8_enc(c: u32) -> Seq<u8> {
    if c < 0x80 {
        seq![c as u8]
    } else if c < 0x800 {
        seq![(0xC0u32 | (c >> 6)) as u8, (0x80u32 | (c & 0x3F)) as u8]
    } else if c < 0x10000 {
        seq![
            (0xE0u32 | (c >> 12)) as u8,
            (0x80u32 | ((c >> 6) & 0x3F)) as u8,
            (0x80u32 | (c & 0x3F)) as u8,
        ]
    } else {
        seq![
            (0xF0u32 | (c >> 18)) as u8,
            (0x80u32 | ((c >> 12) & 0x3F)) as u8,
            (0x80u32 | ((c >> 6) & 0x3F)) as u8,
            (0x80u32 | (c & 0x3F)) as u8,
        ]
    }
}

/// A code point a character reference may name: a Unicode scalar value.
pub open spec fn valid_scalar(c: int) -> bool {
    0 <= c <= 0x10FFFF && !(0xD800 <= c <= 0xDFFF)
}

/// Writes the UTF-8 encoding of `c` onto `out`.
pub fn push_utf8(out: &mut Vec<u8>, c: u32)
    requires
        valid_scalar(c as int),
    ensures
        final (out)@ == old(out)@ + utf8_enc(c),
{
    if c < 0x80 {
        out.push(c as u8);
    } else if c < 0x800 {
        out.push((0xC0u32 | (c >> 6)) as u8);
        out.push((0x80u32 | (c & 0x3F)) as u8);
    } else if c < 0x10000 {
        out.push((0xE0u32 | (c >> 12)) as u8);
        out.push((0x80u32 | ((c >> 6) & 0x3F)) as u8);
        out.push((0x80u32 | (c & 0x3F)) as u8);
    } else {
        out.push((0xF0u32 | (c >> 18)) as u8);
        out.push((0x80u32 | ((c >> 12) & 0x3F)) as u8);
        out.push((0x80u32 | ((c >> 6) & 0x3F)) as u8);
        out.push((0x80u32 | (c & 0x3F)) as u8);
    }
    proof {
        assert(final (out)@ =~= old(out)@ + utf8_enc(c));
    }
}

} // verus!

verus! {

/// Index of the first `;` in `s`, or -1 if there is none.
pub open spec fn first_semi(s: Seq<u8>) -> int
    decreases s.len(),
{
    if s.len() == 0 {
        -1
    } else if s[0] == SEMI {
        0
    } else {
        let r = first_semi(s.drop_first());
        if r < 0 {
            -1
        } else {
            r + 1
        }
    }
}

/// What `first_semi` returns: the position of the first semicolon.
pub proof fn lemma_first_semi(s: Seq<u8>)
    ensures
        first_semi(s) >= 0 ==> 0 <= first_semi(s) < s.len() && s[first_semi(s)] == SEMI && (forall|
            k: int,
        | 0 <= k < first_semi(s) ==> s[k] != SEMI),
        first_semi(s) < 0 ==> forall|k: int| 0 <= k < s.len() ==> s[k] != SEMI,
    decreases s.len(),
{
    if s.len() > 0 && s[0] != SEMI {
        lemma_first_semi(s.drop_first());
        let r = first_semi(s.drop_first());
        if r >= 0 {
            assert forall|k: int| 0 <= k < first_semi(s) implies s[k] != SEMI by {
                if k > 0 {
                    assert(s.drop_first()[k - 1] == s[k]);
                }
            }
        } else {
            assert forall|k: int| 0 <= k < s.len() implies s[k] != SEMI by {
                if k > 0 {
                    assert(s.drop_first()[k - 1] == s[k]);
                }
            }
        }
    }
}

/// The value of a run of decimal digits, read onto an accumulator; `None` on
/// the first byte that is not a digit.
pub open spec fn dec_val_acc(s: Seq<u8>, acc: int) -> Option<int>
    decreases s.len(),
{
    if s.len() == 0 {
        Some(acc)
    } else if 48 <= s[0] <= 57 {
        dec_val_acc(s.drop_first(), acc * 10 + (s[0] - 48))
    } else {
        None
    }
}

/// The value of a single hexadecimal digit.
pub open spec fn hex_digit(b: u8) -> Option<int> {
    if 48 <= b <= 57 {
        Some((b - 48) as int)
    } else if 97 <= b <= 102 {
        Some((b - 87) as int)
    } else if 65 <= b <= 70 {
        Some((b - 55) as int)
    } else {
        None
    }
}

/// The value of a run of hexadecimal digits, read onto an accumulator.
pub open spec fn hex_val_acc(s: Seq<u8>, acc: int) -> Option<int>
    decreases s.len(),
{
    if s.len() == 0 {
        Some(acc)
    } else {
        match hex_digit(s[0]) {
            Some(d) => hex_val_acc(s.drop_first(), acc * 16 + d),
            None => None,
        }
    }
}

/// The bytes that the text between `&` and `;` stands for, or `None` if it
/// is no known entity or character reference.
pub open spec fn entity_bytes(name: Seq<u8>) -> Option<Seq<u8>> {
    if name == seq![97u8, 109u8, 112u8] {  // amp
        Some(seq![AMP])
    } else if name == seq![108u8, 116u8] {  // lt
        Some(seq![LT])
    } else if name == seq![103u8, 116u8] {  // gt
        Some(seq![GT])
    } else if name == seq![97u8, 112u8, 111u8, 115u8] {  // apos
        Some(seq![APOS])
    } else if name == seq![113u8, 117u8, 111u8, 116u8] {  // quot
        Some(seq![QUOT])
    } else if name.len() >= 3 && name[0] == HASH && name[1] == 120 {  // #x
        match hex_val_acc(name.skip(2), 0) {
            Some(v) => if valid_scalar(v) {
                Some(utf8_enc(v as u32))
            } else {
                None
            },
            None => None,
        }
    } else if name.len() >= 2 && name[0] == HASH {  // #
        match dec_val_acc(name.skip(1), 0) {
            Some(v) => if valid_scalar(v) {
                Some(utf8_enc(v as u32))
            } else {
                None
            },
            None => None,
        }
    } else {
        None
    }
}

/// Decodes entity and character references in a run of character data.
/// `None` means a bare `&` without a closing `;`, an unknown entity, or a
/// character reference that names no Unicode scalar value.
pub open spec fn unescape_spec(s: Seq<u8>) -> Option<Seq<u8>>
    decreases s.len(),
{
    if s.len() == 0 {
        Some(Seq::empty())
    } else if s[0] != AMP {
        match unescape_spec(s.drop_first()) {
            Some(r) => Some(seq![s[0]] + r),
            None => None,
        }
    } else {
        let j = first_semi(s);
        if j < 0 || j >= s.len() {
            None
        } else {
            match entity_bytes(s.subrange(1, j)) {
                Some(bs) => match unescape_spec(s.skip(j + 1)) {
                    Some(r) => Some(bs + r),
                    None => None,
                },
                None => None,
            }
        }
    }
}

} // verus!

verus! {

/// Decodes entity and character references in a run of character data.
/// Returns `None` where the text is not decodable (see `unescape_spec`).
pub fn unescape_text(s: &[u8]) -> (r: Option<Vec<u8>>)
    ensures
        r matches Some(v) ==> unescape_spec(s@) == Some(v@),
        r is None ==> unescape_spec(s@) is None,
{
    let mut out: Vec<u8> = Vec::new();
    let mut i: usize = 0;
    proof {
        assert(s@.skip(0) =~= s@);
        match unescape_spec(s@) {
            Some(r) => {
                assert(Seq::<u8>::empty() + r =~= r);
            },
            None => {},
        }
    }
    loop
        invariant
            0 <= i <= s@.len(),
            unescape_spec(s@) == match unescape_spec(s@.skip(i as int)) {
                Some(r) => Some(out@ + r),
                None => None::<Seq<u8>>,
            },
        decreases s@.len() - i,
    {
        if i == s.len() {
            proof {
                assert(s@.skip(i as int) =~= Seq::<u8>::empty());
                assert(unescape_spec(s@.skip(i as int)) == Some(Seq::<u8>::empty()));
                assert(out@ + Seq::<u8>::empty() =~= out@);
            }
            return Some(out);
        }
        let ghost rem = s@.skip(i as int);
        proof {
            assert(rem[0] == s@[i as int]);
            assert(rem.drop_first() =~= s@.skip(i as int + 1));
        }
        let b = s[i];
        if b != AMP {
            let ghost out0 = out@;
            out.push(b);
            proof {
                match unescape_spec(s@.skip(i as int + 1)) {
                    Some(r) => {
                        assert(unescape_spec(rem) == Some(seq![b] + r));
                        assert(out0 + (seq![b] + r) =~= out@ + r);
                    },
                    None => {
                        assert(unescape_spec(rem) is None);
                    },
                }
            }
            i = i + 1;
            continue ;
        }
        // b == AMP: find the closing ';'
        let mut j: usize = i + 1;
        loop
            invariant
                i + 1 <= j <= s@.len(),
                forall|k: int| i < k < j ==> s@[k] != SEMI,
            ensures
                i + 1 <= j <= s@.len(),
                forall|k: int| i < k < j ==> s@[k] != SEMI,
                j < s@.len() ==> s@[j as int] == SEMI,
            decreases s@.len() - j + 1,
        {
            if j == s.len() {
                break ;
            }
            if s[j] == SEMI {
                break ;
            }
            j = j + 1;
        }
        proof {
            lemma_first_semi(rem);
        }
        if j == s.len() {
            // no closing ';': not decodable
            proof {
                let fs = first_semi(rem);
                if fs >= 0 {
                    assert(rem[fs] == SEMI);
                    assert(rem[fs] == s@[i + fs]);
                    assert(false);
                }
                assert(unescape_spec(rem) is None);
            }
            return None;
        }
        proof {
            let fs = first_semi(rem);
            assert(rem[j - i] == s@[j as int]);
            if fs < 0 {
                assert(rem[j - i] != SEMI);
                assert(false);
            }
            if fs < j - i {
                if fs == 0 {
                    assert(rem[0] == AMP);
                } else {
                    assert(rem[fs] == s@[i + fs]);
                }
                assert(false);
            }
            if fs > j - i {
                assert(rem[j - i] != SEMI);
                assert(false);
            }
            assert(fs == j - i);
            assert(0 < fs < rem.len());
        }
        let ghost name = rem.subrange(1, j - i);
        proof {
            assert(name =~= s@.subrange(i as int + 1, j as int));
            assert forall|t: int| 0 <= t < name.len() implies name[t] == s@[i + 1 + t] by {}
        }
        let nlen = j - i - 1;
        let ghost out0 = out@;
        if nlen == 3 && s[i + 1] == 97 && s[i + 2] == 109 && s[i + 3] == 112 {
            out.push(AMP);
            proof {
                assert(name =~= seq![97u8, 109u8, 112u8]);
                assert(entity_bytes(name) == Some(seq![AMP]));
                assert(out@ =~= out0 + seq![AMP]);
            }
        } else if nlen == 2 && s[i + 1] == 108 && s[i + 2] == 116 {
            out.push(LT);
            proof {
                assert(name =~= seq![108u8, 116u8]);
                assert(entity_bytes(name) == Some(seq![LT]));
                assert(out@ =~= out0 + seq![LT]);
            }
        } else if nlen == 2 && s[i + 1] == 103 && s[i + 2] == 116 {
            out.push(GT);
            proof {
                assert(name =~= seq![103u8, 116u8]);
                assert(entity_bytes(name) == Some(seq![GT]));
                assert(out@ =~= out0 + seq![GT]);
            }
        } else if nlen == 4 && s[i + 1] == 97 && s[i + 2] == 112 && s[i + 3] == 111 && s[i + 4]
            == 115 {
            out.push(APOS);
            proof {
                assert(name =~= seq![97u8, 112u8, 111u8, 115u8]);
                assert(entity_bytes(name) == Some(seq![APOS]));
                assert(out@ =~= out0 + seq![APOS]);
            }
        } else if nlen == 4 && s[i + 1] == 113 && s[i + 2] == 117 && s[i + 3] == 111 && s[i + 4]
            == 116 {
            out.push(QUOT);
            proof {
                assert(name =~= seq![113u8, 117u8, 111u8, 116u8]);
                assert(entity_bytes(name) == Some(seq![QUOT]));
                assert(out@ =~= out0 + seq![QUOT]);
            }
        } else if nlen >= 3 && s[i + 1] == HASH && s[i + 2] == 120 {
            // hexadecimal character reference
            let ghost digs = name.skip(2);
            proof {
                assert(digs =~= s@.subrange(i as int + 3, j as int));
            }
            let mut acc: u64 = 0;
            let ghost mut accg: int = 0;
            let mut t: usize = i + 3;
            proof {
                assert(s@.subrange(t as int, j as int) =~= digs);
            }
            while t < j
                invariant
                    i + 3 <= t <= j,
                    j < s@.len(),
                    nlen == j - i - 1,
                    nlen >= 3,
                    name == rem.subrange(1, j - i),
                    name.len() == nlen,
                    name[0] == HASH,
                    name[1] == 120,
                    first_semi(rem) == j - i,
                    rem == s@.skip(i as int),
                    i < s@.len(),
                    rem[0] == AMP,
                    unescape_spec(s@) == match unescape_spec(s@.skip(i as int)) {
                        Some(r) => Some(out@ + r),
                        None => None::<Seq<u8>>,
                    },
                    digs == name.skip(2),
                    digs == s@.subrange(i as int + 3, j as int),
                    hex_val_acc(digs, 0) == hex_val_acc(s@.subrange(t as int, j as int), accg),
                    accg >= 0,
                    accg <= 0x10FFFF ==> acc == accg,
                    accg > 0x10FFFF ==> acc > 0x10FFFF,
                    acc <= 0x7FFFFFFF,
                decreases j - t,
            {
                let ghost drest = s@.subrange(t as int, j as int);
                proof {
                    assert(drest[0] == s@[t as int]);
                    assert(drest.drop_first() =~= s@.subrange(t as int + 1, j as int));
                }
                let d = s[t];
                let dv: u64;
                if 48 <= d && d <= 57 {
                    dv = (d - 48) as u64;
                } else if 97 <= d && d <= 102 {
                    dv = (d - 87) as u64;
                } else if 65 <= d && d <= 70 {
                    dv = (d - 55) as u64;
                } else {
                    proof {
                        assert(hex_digit(drest[0]) is None);
                        assert(hex_val_acc(digs, 0) is None);
                        assert(entity_bytes(name) is None);
                        assert(unescape_spec(rem) is None);
                        assert(unescape_spec(s@) is None);
                    }
                    return None;
                }
                if acc > 0x10FFFF {
                    acc = 0x110000;
                } else {
                    acc = acc * 16 + dv;
                }
                proof {
                    accg = accg * 16 + hex_digit(drest[0]).unwrap();
                }
                t = t + 1;
            }
            proof {
                assert(s@.subrange(t as int, j as int) =~= Seq::<u8>::empty());
                assert(hex_val_acc(digs, 0) == Some(accg));
            }
            if acc > 0x10FFFF || (0xD800 <= acc && acc <= 0xDFFF) {
                proof {
                    assert(!valid_scalar(accg));
                    assert(entity_bytes(name) is None);
                    assert(unescape_spec(rem) is None);
                    assert(unescape_spec(s@) is None);
                }
                return None;
            }
            push_utf8(&mut out, acc as u32);
            proof {
                assert(valid_scalar(accg));
                assert(entity_bytes(name) == Some(utf8_enc(acc as u32)));
            }
        } else if nlen >= 2 && s[i + 1] == HASH {
            // decimal character reference
            let ghost digs = name.skip(1);
            proof {
                assert(digs =~= s@.subrange(i as int + 2, j as int));
            }
            let mut acc: u64 = 0;
            let ghost mut accg: int = 0;
            let mut t: usize = i + 2;
            proof {
                assert(s@.subrange(t as int, j as int) =~= digs);
            }
            while t < j
                invariant
                    i + 2 <= t <= j,
                    j < s@.len(),
                    nlen == j - i - 1,
                    nlen >= 2,
                    name == rem.subrange(1, j - i),
                    name.len() == nlen,
                    name[0] == HASH,
                    nlen >= 3 ==> name[1] != 120,
                    first_semi(rem) == j - i,
                    rem == s@.skip(i as int),
                    i < s@.len(),
                    rem[0] == AMP,
                    unescape_spec(s@) == match unescape_spec(s@.skip(i as int)) {
                        Some(r) => Some(out@ + r),
                        None => None::<Seq<u8>>,
                    },
                    digs == name.skip(1),
                    digs == s@.subrange(i as int + 2, j as int),
                    dec_val_acc(digs, 0) == dec_val_acc(s@.subrange(t as int, j as int), accg),
                    accg >= 0,
                    accg <= 0x10FFFF ==> acc == accg,
                    accg > 0x10FFFF ==> acc > 0x10FFFF,
                    acc <= 0x7FFFFFFF,
                decreases j - t,
            {
                let ghost drest = s@.subrange(t as int, j as int);
                proof {
                    assert(drest[0] == s@[t as int]);
                    assert(drest.drop_first() =~= s@.subrange(t as int + 1, j as int));
                }
                let d = s[t];
                if d < 48 || d > 57 {
                    proof {
                        assert(dec_val_acc(digs, 0) is None);
                        assert(entity_bytes(name) is None);
                        assert(unescape_spec(rem) is None);
                        assert(unescape_spec(s@) is None);
                    }
                    return None;
                }
                let dv = (d - 48) as u64;
                if acc > 0x10FFFF {
                    acc = 0x110000;
                } else {
                    acc = acc * 10 + dv;
                }
                proof {
                    accg = accg * 10 + (drest[0] - 48);
                }
                t = t + 1;
            }
            proof {
                assert(s@.subrange(t as int, j as int) =~= Seq::<u8>::empty());
                assert(dec_val_acc(digs, 0) == Some(accg));
            }
            if acc > 0x10FFFF || (0xD800 <= acc && acc <= 0xDFFF) {
                proof {
                    assert(!valid_scalar(accg));
                    assert(entity_bytes(name) is None);
                    assert(unescape_spec(rem) is None);
                    assert(unescape_spec(s@) is None);
                }
                return None;
            }
            push_utf8(&mut out, acc as u32);
            proof {
                assert(valid_scalar(accg));
                assert(entity_bytes(name) == Some(utf8_enc(acc as u32)));
            }
        } else {
            proof {
                assert(entity_bytes(name) is None);
                assert(unescape_spec(rem) is None);
            }
            return None;
        }
        proof {
            let bs = entity_bytes(name).unwrap();
            assert(out@ == out0 + bs);
            assert(rem.skip(j - i + 1) =~= s@.skip(j as int + 1));
            match unescape_spec(s@.skip(j as int + 1)) {
                Some(r) => {
                    assert(unescape_spec(rem) == Some(bs + r));
                    assert(out0 + (bs + r) =~= out@ + r);
                },
                None => {
                    assert(unescape_spec(rem) is None);
                },
            }
        }
        i = j + 1;
    }
}

} // verus!

verus! {

/// Escaping round-trip: decoding an escaped byte string always succeeds and
/// recovers the original exactly.
pub proof fn lemma_unescape_escape(s: Seq<u8>)
    ensures
        unescape_spec(escape_spec(s)) == Some(s),
    decreases s.len(),
{
    if s.len() == 0 {
        assert(escape_spec(s) =~= Seq::<u8>::empty());
    } else {
        lemma_unescape_escape(s.drop_first());
        let b = s[0];
        let w = escape_spec(s.drop_first());
        let t = escape_spec(s);
        assert(t == escape_byte(b) + w);
        if b == AMP {
            assert(t[0] == AMP && t[1] == 97 && t[2] == 109 && t[3] == 112 && t[4] == SEMI);
            lemma_first_semi(t);
            let fs = first_semi(t);
            if fs < 0 {
                assert(t[4] != SEMI);
                assert(false);
            }
            if fs < 4 {
                assert(t[fs] == SEMI);
                assert(false);
            }
            if fs > 4 {
                assert(t[4] != SEMI);
                assert(false);
            }
            assert(fs == 4);
            assert(t.subrange(1, 4) =~= seq![97u8, 109u8, 112u8]);
            assert(entity_bytes(t.subrange(1, 4)) == Some(seq![AMP]));
            assert(t.skip(5) =~= w);
            assert(seq![AMP] + s.drop_first() =~= s);
        } else if b == LT {
            assert(t[0] == AMP && t[1] == 108 && t[2] == 116 && t[3] == SEMI);
            lemma_first_semi(t);
            let fs = first_semi(t);
            if fs < 0 {
                assert(t[3] != SEMI);
                assert(false);
            }
            if fs < 3 {
                assert(t[fs] == SEMI);
                assert(false);
            }
            if fs > 3 {
                assert(t[3] != SEMI);
                assert(false);
            }
            assert(fs == 3);
            assert(t.subrange(1, 3) =~= seq![108u8, 116u8]);
            assert(entity_bytes(t.subrange(1, 3)) == Some(seq![LT]));
            assert(t.skip(4) =~= w);
            assert(seq![LT] + s.drop_first() =~= s);
        } else {
            assert(t[0] == b);
            assert(t.drop_first() =~= w);
            assert(seq![b] + s.drop_first() =~= s);
        }
    }
}

} // verus!
