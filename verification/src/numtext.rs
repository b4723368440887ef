//! Decimal text: rendering integers onto a byte sink, and parsing signed
//! integers with the exact acceptance rules of the wire format (an optional
//! leading `+` or `-`, then one or more decimal digits, nothing else).

use vstd::prelude::*;

use crate::escape::dec_val_acc;

verus! {

/// The decimal digits of a non-negative number, most significant first.
pub open spec fn dec_digits(n: int) -> Seq<u8>
    decreases n,
{
    if n < 10 {
        seq![(48 + if n >= 0 { n } else { 0 }) as u8]
    } else {
        dec_digits(n / 10) + seq![(48 + n % 10) as u8]
    }
}

/// The decimal text of a signed number: a `-` sign where negative, no sign
/// otherwise.
pub open spec fn dec_int(n: int) -> Seq<u8> {
    if n < 0 {
        seq![45u8] + dec_digits(-n)
    } else {
        dec_digits(n)
    }
}

/// Zero-padding to two digits, as `{:02}` renders.
pub open spec fn dec_pad2(n: int) -> Seq<u8> {
    if 0 <= n < 10 {
        seq![48u8] + dec_digits(n)
    } else {
        dec_digits(n)
    }
}

/// Zero-padding to three digits.
pub open spec fn dec_pad3(n: int) -> Seq<u8> {
    if 0 <= n < 10 {
        seq![48u8, 48u8] + dec_digits(n)
    } else if 10 <= n < 100 {
        seq![48u8] + dec_digits(n)
    } else {
        dec_digits(n)
    }
}

/// Zero-padding to four digits, as `{:04}` renders.
pub open spec fn dec_pad4(n: int) -> Seq<u8> {
    if 0 <= n < 10 {
        seq![48u8, 48u8, 48u8] + dec_digits(n)
    } else if 10 <= n < 100 {
        seq![48u8, 48u8] + dec_digits(n)
    } else if 100 <= n < 1000 {
        seq![48u8] + dec_digits(n)
    } else {
        dec_digits(n)
    }
}

/// Writes the decimal digits of `n` onto `out`.
pub fn push_dec_u64(out: &mut Vec<u8>, n: u64)
    ensures
        final (out)@ == old(out)@ + dec_digits(n as int),
    decreases n,
{
    if n < 10 {
        out.push(48 + n as u8);
        proof {
            assert(final (out)@ =~= old(out)@ + dec_digits(n as int));
        }
    } else {
        push_dec_u64(out, n / 10);
        out.push(48 + (n % 10) as u8);
        proof {
            assert(final (out)@ =~= old(out)@ + (dec_digits(n as int / 10) + seq![
                (48 + n as int % 10) as u8,
            ]));
        }
    }
}

/// Writes the decimal text of a signed number onto `out`.
pub fn push_dec_i64(out: &mut Vec<u8>, n: i64)
    ensures
        final (out)@ == old(out)@ + dec_int(n as int),
{
    if n < 0 {
        out.push(45);
        let m: u64 = if n == i64::MIN {
            9223372036854775808u64
        } else {
            (-n) as u64
        };
        proof {
            assert(m as int == -(n as int));
        }
        let ghost mid = out@;
        push_dec_u64(out, m);
        proof {
            assert(final (out)@ =~= old(out)@ + (seq![45u8] + dec_digits(-(n as int))));
        }
    } else {
        push_dec_u64(out, n as u64);
    }
}

/// Writes `n` zero-padded to two digits onto `out`.
pub fn push_dec_pad2(out: &mut Vec<u8>, n: u32)
    ensures
        final (out)@ == old(out)@ + dec_pad2(n as int),
{
    if n < 10 {
        out.push(48);
        let ghost mid = out@;
        push_dec_u64(out, n as u64);
        proof {
            assert(final (out)@ =~= old(out)@ + (seq![48u8] + dec_digits(n as int)));
        }
    } else {
        push_dec_u64(out, n as u64);
    }
}

/// Writes `n` zero-padded to three digits onto `out`.
pub fn push_dec_pad3(out: &mut Vec<u8>, n: u32)
    ensures
        final (out)@ == old(out)@ + dec_pad3(n as int),
{
    if n < 10 {
        out.push(48);
        out.push(48);
        push_dec_u64(out, n as u64);
        proof {
            assert(final (out)@ =~= old(out)@ + (seq![48u8, 48u8] + dec_digits(n as int)));
        }
    } else if n < 100 {
        out.push(48);
        push_dec_u64(out, n as u64);
        proof {
            assert(final (out)@ =~= old(out)@ + (seq![48u8] + dec_digits(n as int)));
        }
    } else {
        push_dec_u64(out, n as u64);
    }
}

/// Writes `n` zero-padded to four digits onto `out`.
pub fn push_dec_pad4(out: &mut Vec<u8>, n: u32)
    ensures
        final (out)@ == old(out)@ + dec_pad4(n as int),
{
    if n < 10 {
        out.push(48);
        out.push(48);
        out.push(48);
        push_dec_u64(out, n as u64);
        proof {
            assert(final (out)@ =~= old(out)@ + (seq![48u8, 48u8, 48u8] + dec_digits(n as int)));
        }
    } else if n < 100 {
        out.push(48);
        out.push(48);
        push_dec_u64(out, n as u64);
        proof {
            assert(final (out)@ =~= old(out)@ + (seq![48u8, 48u8] + dec_digits(n as int)));
        }
    } else if n < 1000 {
        out.push(48);
        push_dec_u64(out, n as u64);
        proof {
            assert(final (out)@ =~= old(out)@ + (seq![48u8] + dec_digits(n as int)));
        }
    } else {
        push_dec_u64(out, n as u64);
    }
}

/// The integer a piece of text stands for: an optional sign, then one or
/// more decimal digits, nothing else. `None` where the text has any other
/// shape.
pub open spec fn int_text_val(s: Seq<u8>) -> Option<int> {
    if s.len() == 0 {
        None
    } else {
        let neg = s[0] == 45;
        let digits = if s[0] == 45 || s[0] == 43 {
            s.drop_first()
        } else {
            s
        };
        if digits.len() == 0 {
            None
        } else {
            match dec_val_acc(digits, 0) {
                Some(v) => Some(
                    if neg {
                        -v
                    } else {
                        v
                    },
                ),
                None => None,
            }
        }
    }
}

/// Parses text as a signed 64-bit integer: `None` where the text is not an
/// optionally-signed run of digits, or the value does not fit.
pub fn parse_i64(s: &[u8]) -> (r: Option<i64>)
    ensures
        r matches Some(v) ==> int_text_val(s@) == Some(v as int),
        r is None <==> (int_text_val(s@) is None || !(i64::MIN <= int_text_val(s@).unwrap()
            <= i64::MAX)),
{
    if s.len() == 0 {
        return None;
    }
    let b0 = s[0];
    let neg = b0 == 45;
    let start: usize = if b0 == 45 || b0 == 43 {
        1
    } else {
        0
    };
    let ghost digits = s@.skip(start as int);
    proof {
        if start == 0 {
            assert(digits =~= s@);
        } else {
            assert(digits =~= s@.drop_first());
        }
    }
    if start == s.len() {
        return None;
    }
    let mut acc: u64 = 0;
    let ghost mut accg: int = 0;
    let mut t: usize = start;
    proof {
        assert(s@.subrange(t as int, s@.len() as int) =~= digits);
    }
    while t < s.len()
        invariant
            start == 0 || start == 1,
            start <= t <= s@.len(),
            start < s@.len(),
            digits == s@.skip(start as int),
            neg == (s@[0] == 45),
            (start == 1) == (s@[0] == 45 || s@[0] == 43),
            dec_val_acc(digits, 0) == dec_val_acc(
                s@.subrange(t as int, s@.len() as int),
                accg,
            ),
            accg >= 0,
            accg <= 9223372036854775808 ==> acc == accg,
            accg > 9223372036854775808 ==> acc > 9223372036854775808,
            acc <= 9223372036854775809,
        decreases s@.len() - t,
    {
        let ghost drest = s@.subrange(t as int, s@.len() as int);
        proof {
            assert(drest[0] == s@[t as int]);
            assert(drest.drop_first() =~= s@.subrange(t as int + 1, s@.len() as int));
        }
        let d = s[t];
        if d < 48 || d > 57 {
            proof {
                assert(dec_val_acc(digits, 0) is None);
                if start == 1 {
                    assert(s@.drop_first() =~= s@.skip(1));
                } else {
                    assert(s@.skip(0) =~= s@);
                }
                assert(int_text_val(s@) is None);
            }
            return None;
        }
        let dv = (d - 48) as u64;
        if acc > 922337203685477580 {
            acc = 9223372036854775809;
        } else {
            acc = acc * 10 + dv;
        }
        proof {
            accg = accg * 10 + (drest[0] - 48);
        }
        t = t + 1;
    }
    proof {
        assert(s@.subrange(t as int, s@.len() as int) =~= Seq::<u8>::empty());
        assert(dec_val_acc(digits, 0) == Some(accg));
        if start == 1 {
            assert(s@.drop_first() =~= s@.skip(1));
        } else {
            assert(s@.skip(0) =~= s@);
        }
        if neg {
            assert(int_text_val(s@) == Some(-accg));
        } else {
            assert(int_text_val(s@) == Some(accg));
        }
    }
    if neg {
        if acc > 9223372036854775808 {
            return None;
        } else if acc == 9223372036854775808 {
            return Some(i64::MIN);
        } else {
            return Some(-(acc as i64));
        }
    } else {
        if acc > 9223372036854775807 {
            return None;
        } else {
            return Some(acc as i64);
        }
    }
}

/// Parses text as a signed 32-bit integer, with the same acceptance rules.
pub fn parse_i32(s: &[u8]) -> (r: Option<i32>)
    ensures
        r matches Some(v) ==> int_text_val(s@) == Some(v as int),
        r is None <==> (int_text_val(s@) is None || !(i32::MIN <= int_text_val(s@).unwrap()
            <= i32::MAX)),
{
    match parse_i64(s) {
        Some(v) => {
            if v < -2147483648i64 || v > 2147483647i64 {
                None
            } else {
                Some(v as i32)
            }
        },
        None => None,
    }
}

} // verus!

verus! {

/// Reading one more digit onto the right multiplies the value by ten.
proof fn lemma_dec_val_snoc(s: Seq<u8>, d: u8, acc: int)
    requires
        48 <= d <= 57,
    ensures
        dec_val_acc(s.push(d), acc) == match dec_val_acc(s, acc) {
            Some(v) => Some(v * 10 + (d - 48)),
            None => None::<int>,
        },
    decreases s.len(),
{
    reveal_with_fuel(dec_val_acc, 3);
    if s.len() == 0 {
        assert(s.push(d)[0] == d);
        assert(s.push(d).drop_first() =~= Seq::<u8>::empty());
    } else {
        assert(s.push(d)[0] == s[0]);
        assert(s.push(d).drop_first() =~= s.drop_first().push(d));
        if 48 <= s[0] <= 57 {
            lemma_dec_val_snoc(s.drop_first(), d, acc * 10 + (s[0] - 48));
        }
    }
}

/// The decimal digits of a number read back as that number, and are all
/// digit bytes.
pub proof fn lemma_dec_digits_val(n: int)
    requires
        n >= 0,
    ensures
        dec_val_acc(dec_digits(n), 0) == Some(n),
        dec_digits(n).len() >= 1,
        forall|k: int| 0 <= k < dec_digits(n).len() ==> 48 <= #[trigger] dec_digits(n)[k] <= 57,
    decreases n,
{
    reveal_with_fuel(dec_val_acc, 3);
    reveal_with_fuel(dec_digits, 2);
    if n < 10 {
        assert(dec_digits(n) =~= seq![(48 + n) as u8]);
        assert(dec_digits(n).drop_first() =~= Seq::<u8>::empty());
    } else {
        lemma_dec_digits_val(n / 10);
        assert(dec_digits(n) =~= dec_digits(n / 10).push((48 + n % 10) as u8));
        lemma_dec_val_snoc(dec_digits(n / 10), (48 + n % 10) as u8, 0);
        assert((n / 10) * 10 + n % 10 == n);
        assert forall|k: int| 0 <= k < dec_digits(n).len() implies 48 <= #[trigger] dec_digits(
            n,
        )[k] <= 57 by {
            if k < dec_digits(n / 10).len() {
                assert(dec_digits(n)[k] == dec_digits(n / 10)[k]);
            } else {
                assert(dec_digits(n)[k] == (48 + n % 10) as u8);
            }
        }
    }
}

/// How many digits a number up to four digits renders as.
pub proof fn lemma_dec_digits_len4(n: int)
    requires
        0 <= n <= 9999,
    ensures
        n < 10 ==> dec_digits(n).len() == 1,
        10 <= n < 100 ==> dec_digits(n).len() == 2,
        100 <= n < 1000 ==> dec_digits(n).len() == 3,
        1000 <= n ==> dec_digits(n).len() == 4,
{
    reveal_with_fuel(dec_digits, 5);
    if n >= 10 {
        assert(dec_digits(n) == dec_digits(n / 10) + seq![(48 + n % 10) as u8]);
    }
    if n >= 100 {
        assert(dec_digits(n / 10) == dec_digits(n / 100) + seq![(48 + (n / 10) % 10) as u8]);
    }
    if n >= 1000 {
        assert(dec_digits(n / 100) == dec_digits(n / 1000) + seq![(48 + (n / 100) % 10) as u8]);
    }
}

/// A two-digit rendering: exactly two digit bytes, reading back as the
/// number.
pub proof fn lemma_pad2_props(n: int)
    requires
        0 <= n <= 99,
    ensures
        dec_pad2(n).len() == 2,
        dec_val_acc(dec_pad2(n), 0) == Some(n),
        forall|k: int| 0 <= k < 2 ==> 48 <= #[trigger] dec_pad2(n)[k] <= 57,
    decreases n,
{
    lemma_dec_digits_val(n);
    lemma_dec_digits_len4(n);
    if n < 10 {
        let s = dec_pad2(n);
        assert(s == seq![48u8] + dec_digits(n));
        assert(s[0] == 48);
        assert(s.drop_first() =~= dec_digits(n));
        assert(dec_val_acc(s, 0) == dec_val_acc(dec_digits(n), 0 * 10 + (48 - 48)));
    }
}

/// A three-digit rendering: exactly three digit bytes, reading back as
/// the number.
pub proof fn lemma_pad3_props(n: int)
    requires
        0 <= n <= 999,
    ensures
        dec_pad3(n).len() == 3,
        dec_val_acc(dec_pad3(n), 0) == Some(n),
        forall|k: int| 0 <= k < 3 ==> 48 <= #[trigger] dec_pad3(n)[k] <= 57,
{
    lemma_dec_digits_val(n);
    lemma_dec_digits_len4(n);
    let s = dec_pad3(n);
    if n < 10 {
        assert(s == seq![48u8, 48u8] + dec_digits(n));
        assert(s.skip(1) =~= seq![48u8] + dec_digits(n));
        assert(s.skip(2) =~= dec_digits(n));
        assert(s.drop_first() =~= s.skip(1));
        assert(s.skip(1).drop_first() =~= s.skip(2));
        assert(dec_val_acc(s, 0) == dec_val_acc(s.skip(1), 0));
        assert(dec_val_acc(s.skip(1), 0) == dec_val_acc(dec_digits(n), 0));
    } else if n < 100 {
        assert(s == seq![48u8] + dec_digits(n));
        assert(s.drop_first() =~= dec_digits(n));
        assert(dec_val_acc(s, 0) == dec_val_acc(dec_digits(n), 0));
    }
}

/// A four-digit rendering: exactly four digit bytes, reading back as the
/// number.
pub proof fn lemma_pad4_props(n: int)
    requires
        0 <= n <= 9999,
    ensures
        dec_pad4(n).len() == 4,
        dec_val_acc(dec_pad4(n), 0) == Some(n),
        forall|k: int| 0 <= k < 4 ==> 48 <= #[trigger] dec_pad4(n)[k] <= 57,
{
    lemma_dec_digits_val(n);
    lemma_dec_digits_len4(n);
    let s = dec_pad4(n);
    if n < 10 {
        assert(s == seq![48u8, 48u8, 48u8] + dec_digits(n));
        assert(s.skip(1) =~= seq![48u8, 48u8] + dec_digits(n));
        assert(s.skip(2) =~= seq![48u8] + dec_digits(n));
        assert(s.skip(3) =~= dec_digits(n));
        assert(s.drop_first() =~= s.skip(1));
        assert(s.skip(1).drop_first() =~= s.skip(2));
        assert(s.skip(2).drop_first() =~= s.skip(3));
        assert(dec_val_acc(s, 0) == dec_val_acc(s.skip(1), 0));
        assert(dec_val_acc(s.skip(1), 0) == dec_val_acc(s.skip(2), 0));
        assert(dec_val_acc(s.skip(2), 0) == dec_val_acc(dec_digits(n), 0));
    } else if n < 100 {
        assert(s == seq![48u8, 48u8] + dec_digits(n));
        assert(s.skip(1) =~= seq![48u8] + dec_digits(n));
        assert(s.skip(2) =~= dec_digits(n));
        assert(s.drop_first() =~= s.skip(1));
        assert(s.skip(1).drop_first() =~= s.skip(2));
        assert(dec_val_acc(s, 0) == dec_val_acc(s.skip(1), 0));
        assert(dec_val_acc(s.skip(1), 0) == dec_val_acc(dec_digits(n), 0));
    } else if n < 1000 {
        assert(s == seq![48u8] + dec_digits(n));
        assert(s.drop_first() =~= dec_digits(n));
        assert(dec_val_acc(s, 0) == dec_val_acc(dec_digits(n), 0));
    }
}

/// Integers survive the codec: the decimal text written for a signed
/// number is read back as exactly that number.
pub proof fn lemma_int_text_roundtrip(n: int)
    ensures
        int_text_val(dec_int(n)) == Some(n),
{
    if n >= 0 {
        lemma_dec_digits_val(n);
        let s = dec_int(n);
        assert(s == dec_digits(n));
        assert(s[0] != 45 && s[0] != 43);
    } else {
        lemma_dec_digits_val(-n);
        let s = dec_int(n);
        assert(s == seq![45u8] + dec_digits(-n));
        assert(s[0] == 45);
        assert(s.drop_first() =~= dec_digits(-n));
        assert(int_text_val(s) == Some(-(-n)));
    }
}

} // verus!
