//! The syntax of `<double>` content. A double value carries its decimal
//! text through the codec unchanged; this module decides whether a piece of
//! text is valid 64-bit float syntax (optional sign; `inf`, `infinity` or
//! `nan`, case-insensitive; or a decimal number with optional fraction and
//! exponent).

use vstd::prelude::*;

verus! {

pub open spec fn is_digit(b: u8) -> bool {
    48 <= b <= 57
}

/// ASCII lower-casing of one byte.
pub open spec fn low(b: u8) -> u8 {
    if 65 <= b <= 90 {
        (b + 32) as u8
    } else {
        b
    }
}

pub open spec fn all_digits(s: Seq<u8>) -> bool {
    forall|i: int| 0 <= i < s.len() ==> is_digit(s[i])
}

/// The lower-cased text.
pub open spec fn low_seq(s: Seq<u8>) -> Seq<u8> {
    Seq::new(s.len(), |i: int| if 0 <= i < s.len() { low(s[i]) } else { 0u8 })
}

/// `inf`, `infinity` or `nan`, case-insensitive.
pub open spec fn is_special(s: Seq<u8>) -> bool {
    low_seq(s) == seq![105u8, 110u8, 102u8] || low_seq(s) == seq![
        105u8,
        110u8,
        102u8,
        105u8,
        110u8,
        105u8,
        116u8,
        121u8,
    ] || low_seq(s) == seq![110u8, 97u8, 110u8]
}

/// Index of the first byte equal to `b1` or `b2`, or -1.
pub open spec fn first_of2(s: Seq<u8>, b1: u8, b2: u8) -> int
    decreases s.len(),
{
    if s.len() == 0 {
        -1
    } else if s[0] == b1 || s[0] == b2 {
        0
    } else {
        let r = first_of2(s.drop_first(), b1, b2);
        if r < 0 {
            -1
        } else {
            r + 1
        }
    }
}

/// What `first_of2` returns: the position of the first matching byte.
pub proof fn lemma_first_of2(s: Seq<u8>, b1: u8, b2: u8)
    ensures
        first_of2(s, b1, b2) >= 0 ==> 0 <= first_of2(s, b1, b2) < s.len() && (s[first_of2(s, b1, b2)]
            == b1 || s[first_of2(s, b1, b2)] == b2) && (forall|k: int|
            0 <= k < first_of2(s, b1, b2) ==> s[k] != b1 && s[k] != b2),
        first_of2(s, b1, b2) < 0 ==> forall|k: int| 0 <= k < s.len() ==> s[k] != b1 && s[k] != b2,
    decreases s.len(),
{
    if s.len() > 0 && s[0] != b1 && s[0] != b2 {
        lemma_first_of2(s.drop_first(), b1, b2);
        let r = first_of2(s.drop_first(), b1, b2);
        if r >= 0 {
            assert forall|k: int| 0 <= k < first_of2(s, b1, b2) implies s[k] != b1 && s[k]
                != b2 by {
                if k > 0 {
                    assert(s.drop_first()[k - 1] == s[k]);
                }
            }
        } else {
            assert forall|k: int| 0 <= k < s.len() implies s[k] != b1 && s[k] != b2 by {
                if k > 0 {
                    assert(s.drop_first()[k - 1] == s[k]);
                }
            }
        }
    }
}

/// A mantissa: digits with at most one point, and at least one digit.
pub open spec fn is_mantissa(m: Seq<u8>) -> bool {
    let di = first_of2(m, 46, 46);
    if di < 0 {
        m.len() > 0 && all_digits(m)
    } else {
        let ip = m.take(di);
        let fp = m.skip(di + 1);
        all_digits(ip) && all_digits(fp) && (ip.len() > 0 || fp.len() > 0)
    }
}

/// An exponent after `e`: an optional sign, then one or more digits.
pub open spec fn is_exp_part(e: Seq<u8>) -> bool {
    let d = if e.len() > 0 && (e[0] == 43 || e[0] == 45) {
        e.drop_first()
    } else {
        e
    };
    d.len() > 0 && all_digits(d)
}

/// A number: a mantissa, optionally followed by `e`/`E` and an exponent.
pub open spec fn is_number(t: Seq<u8>) -> bool {
    let ei = first_of2(t, 101, 69);
    if ei < 0 {
        is_mantissa(t)
    } else {
        is_mantissa(t.take(ei)) && is_exp_part(t.skip(ei + 1))
    }
}

/// Valid 64-bit float syntax, as `<double>` content must have.
pub open spec fn is_f64_text(s: Seq<u8>) -> bool {
    let t = if s.len() > 0 && (s[0] == 43 || s[0] == 45) {
        s.drop_first()
    } else {
        s
    };
    is_special(t) || is_number(t)
}

/// Decides whether a byte range of `s` holds only digits.
fn check_all_digits(s: &[u8], from: usize, to: usize) -> (r: bool)
    requires
        0 <= from <= to <= s@.len(),
    ensures
        r <==> all_digits(s@.subrange(from as int, to as int)),
{
    let ghost sub = s@.subrange(from as int, to as int);
    let mut i: usize = from;
    while i < to
        invariant
            from <= i <= to <= s@.len(),
            sub == s@.subrange(from as int, to as int),
            forall|k: int| 0 <= k < i - from ==> is_digit(sub[k]),
        decreases to - i,
    {
        if s[i] < 48 || s[i] > 57 {
            proof {
                assert(sub[i - from] == s@[i as int]);
                assert(!is_digit(sub[i - from]));
            }
            return false;
        }
        proof {
            assert(sub[i - from] == s@[i as int]);
        }
        i = i + 1;
    }
    true
}

/// Finds the first byte equal to `b1` or `b2` in `s[from..to]`, aligned
/// with `first_of2` on that range. Returns the absolute index, or `to`.
fn find_of2(s: &[u8], from: usize, to: usize, b1: u8, b2: u8) -> (r: usize)
    requires
        0 <= from <= to <= s@.len(),
    ensures
        from <= r <= to,
        r < to ==> first_of2(s@.subrange(from as int, to as int), b1, b2) == r - from,
        r < to ==> (s@[r as int] == b1 || s@[r as int] == b2),
        r == to ==> first_of2(s@.subrange(from as int, to as int), b1, b2) < 0,
{
    let ghost rem = s@.subrange(from as int, to as int);
    let mut i: usize = from;
    while i < to
        invariant
            from <= i <= to <= s@.len(),
            rem == s@.subrange(from as int, to as int),
            forall|k: int| 0 <= k < i - from ==> rem[k] != b1 && rem[k] != b2,
        decreases to - i,
    {
        let b = s[i];
        if b == b1 || b == b2 {
            proof {
                lemma_first_of2(rem, b1, b2);
                assert(rem[i - from] == s@[i as int]);
                let fo = first_of2(rem, b1, b2);
                if fo < 0 {
                    assert(false);
                }
                if fo < i - from {
                    assert(rem[fo] != b1 && rem[fo] != b2);
                    assert(false);
                }
                if fo > i - from {
                    assert(rem[i - from] != b1 && rem[i - from] != b2);
                    assert(false);
                }
            }
            return i;
        }
        proof {
            assert(rem[i - from] == s@[i as int]);
        }
        i = i + 1;
    }
    proof {
        lemma_first_of2(rem, b1, b2);
        let fo = first_of2(rem, b1, b2);
        if fo >= 0 {
            assert(rem[fo] != b1 && rem[fo] != b2);
            assert(false);
        }
    }
    to
}

/// Decides whether `s[from..to]` is a valid mantissa.
fn check_mantissa(s: &[u8], from: usize, to: usize) -> (r: bool)
    requires
        0 <= from <= to <= s@.len(),
    ensures
        r <==> is_mantissa(s@.subrange(from as int, to as int)),
{
    let ghost m = s@.subrange(from as int, to as int);
    let di = find_of2(s, from, to, 46, 46);
    if di == to {
        // no point in the mantissa
        if to == from {
            return false;
        }
        return check_all_digits(s, from, to);
    }
    proof {
        let fo = first_of2(m, 46, 46);
        assert(fo == di - from);
        assert(m.take(fo) =~= s@.subrange(from as int, di as int));
        assert(m.skip(fo + 1) =~= s@.subrange(di as int + 1, to as int));
    }
    if di == from && di + 1 == to {
        // a lone point
        return false;
    }
    let ip_ok = check_all_digits(s, from, di);
    let fp_ok = check_all_digits(s, di + 1, to);
    ip_ok && fp_ok
}

/// Lower-cases one ASCII byte.
fn lower_byte(b: u8) -> (r: u8)
    ensures
        r == low(b),
{
    if 65 <= b && b <= 90 {
        b + 32
    } else {
        b
    }
}

/// Decides whether `s[start..]` is one of the special words.
fn check_special(s: &[u8], start: usize) -> (r: bool)
    requires
        0 <= start <= s@.len(),
    ensures
        r <==> is_special(s@.skip(start as int)),
{
    let ghost t = s@.skip(start as int);
    let nlen = s.len() - start;
    if nlen == 3 {
        let a = lower_byte(s[start]);
        let b = lower_byte(s[start + 1]);
        let c = lower_byte(s[start + 2]);
        proof {
            assert(t[0] == s@[start as int] && t[1] == s@[start as int + 1] && t[2] == s@[start
                as int + 2]);
            assert(low_seq(t)[0] == low(t[0]) && low_seq(t)[1] == low(t[1]) && low_seq(t)[2] == low(
                t[2],
            ));
        }
        if (a == 105 && b == 110 && c == 102) || (a == 110 && b == 97 && c == 110) {
            proof {
                if a == 105 {
                    assert(low_seq(t) =~= seq![105u8, 110u8, 102u8]);
                } else {
                    assert(low_seq(t) =~= seq![110u8, 97u8, 110u8]);
                }
            }
            true
        } else {
            proof {
                let li = seq![105u8, 110u8, 102u8];
                let ln = seq![110u8, 97u8, 110u8];
                if low_seq(t) == li {
                    assert(low(t[0]) == li[0] && low(t[1]) == li[1] && low(t[2]) == li[2]);
                }
                if low_seq(t) == ln {
                    assert(low(t[0]) == ln[0] && low(t[1]) == ln[1] && low(t[2]) == ln[2]);
                }
                assert(!is_special(t));
            }
            false
        }
    } else if nlen == 8 {
        let b0 = lower_byte(s[start]);
        let b1 = lower_byte(s[start + 1]);
        let b2 = lower_byte(s[start + 2]);
        let b3 = lower_byte(s[start + 3]);
        let b4 = lower_byte(s[start + 4]);
        let b5 = lower_byte(s[start + 5]);
        let b6 = lower_byte(s[start + 6]);
        let b7 = lower_byte(s[start + 7]);
        proof {
            assert forall|j: int| 0 <= j < 8 implies t[j] == s@[start + j] by {}
            assert forall|j: int| 0 <= j < 8 implies low_seq(t)[j] == low(t[j]) by {}
        }
        if b0 == 105 && b1 == 110 && b2 == 102 && b3 == 105 && b4 == 110 && b5 == 105 && b6 == 116
            && b7 == 121 {
            proof {
                assert(low_seq(t) =~= seq![105u8, 110u8, 102u8, 105u8, 110u8, 105u8, 116u8, 121u8]);
            }
            true
        } else {
            proof {
                let lw = seq![105u8, 110u8, 102u8, 105u8, 110u8, 105u8, 116u8, 121u8];
                if low_seq(t) == lw {
                    assert forall|j: int| 0 <= j < 8 implies low(t[j]) == lw[j] by {
                        assert(low_seq(t)[j] == low(t[j]));
                        assert(low_seq(t)[j] == lw[j]);
                    }
                    assert(low(t[0]) == 105 && low(t[1]) == 110 && low(t[2]) == 102 && low(t[3])
                        == 105 && low(t[4]) == 110 && low(t[5]) == 105 && low(t[6]) == 116 && low(
                        t[7],
                    ) == 121);
                }
                assert(!is_special(t));
            }
            false
        }
    } else {
        proof {
            assert(low_seq(t).len() == t.len());
            assert(!is_special(t));
        }
        false
    }
}

/// Decides whether `s` is valid 64-bit float syntax.
pub fn check_f64_text(s: &[u8]) -> (r: bool)
    ensures
        r <==> is_f64_text(s@),
{
    let start: usize = if s.len() > 0 && (s[0] == 43 || s[0] == 45) {
        1
    } else {
        0
    };
    let ghost t = s@.skip(start as int);
    proof {
        if start == 0 {
            assert(t =~= s@);
        } else {
            assert(t =~= s@.drop_first());
        }
    }
    let n = s.len();
    if check_special(s, start) {
        return true;
    }
    // not a special word, so a number or nothing
    let ei = find_of2(s, start, n, 101, 69);
    proof {
        assert(t =~= s@.subrange(start as int, n as int));
    }
    if ei == n {
        proof {
            assert(t =~= s@.subrange(start as int, n as int));
        }
        return check_mantissa(s, start, n);
    }
    let mant_ok = check_mantissa(s, start, ei);
    proof {
        assert(t.take(ei - start) =~= s@.subrange(start as int, ei as int));
    }
    if !mant_ok {
        return false;
    }
    // exponent part: an optional sign, then one or more digits
    let mut es: usize = ei + 1;
    let ghost epart = t.skip(ei - start + 1);
    proof {
        assert(epart =~= s@.subrange(ei as int + 1, n as int));
    }
    if es < n && (s[es] == 43 || s[es] == 45) {
        es = es + 1;
        proof {
            assert(epart[0] == s@[ei as int + 1]);
            assert(epart.drop_first() =~= s@.subrange(es as int, n as int));
        }
    } else {
        proof {
            if epart.len() > 0 {
                assert(epart[0] == s@[ei as int + 1]);
            }
            assert(epart =~= s@.subrange(es as int, n as int));
        }
    }
    if es == n {
        return false;
    }
    check_all_digits(s, es, n)
}

} // verus!
