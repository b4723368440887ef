//! The ISO 8601 subset used by `<dateTime.iso8601>` values: a permissive
//! parser (calendar, week and ordinal dates; optional separators, fractional
//! seconds and zone offset) and the interoperability-driven formatter, which
//! always emits `YYYYMMDDTHH:MM:SS` and appends fraction and offset only
//! when they are nonzero.

use vstd::prelude::*;

use crate::escape::dec_val_acc;
use crate::numtext::{dec_digits, dec_pad2, push_dec_pad2, push_dec_u64};
use crate::value::{Date, DateTime, Time};

verus! {

/// Reads exactly `n` decimal digits at `p`: the position after them and
/// their value.
pub open spec fn sp_nd(s: Seq<u8>, p: int, n: int) -> Option<(int, int)> {
    if 0 <= p && p + n <= s.len() {
        match dec_val_acc(s.subrange(p, p + n), 0) {
            Some(v) => Some((p + n, v)),
            None => None,
        }
    } else {
        None
    }
}

/// Reads `n` digits whose value lies in `lo ..= hi`.
pub open spec fn sp_nd_range(s: Seq<u8>, p: int, n: int, lo: int, hi: int) -> Option<(int, int)> {
    match sp_nd(s, p, n) {
        Some((q, v)) => if lo <= v <= hi {
            Some((q, v))
        } else {
            None
        },
        None => None,
    }
}

/// Reads an optionally signed four-digit year.
pub open spec fn sp_year(s: Seq<u8>, p: int) -> Option<(int, int)> {
    let neg = 0 <= p < s.len() && s[p] == 45;
    let q = if 0 <= p < s.len() && (s[p] == 43 || s[p] == 45) {
        p + 1
    } else {
        p
    };
    match sp_nd(s, q, 4) {
        Some((r, v)) => Some(
            (
                r,
                if neg {
                    -v
                } else {
                    v
                },
            ),
        ),
        None => None,
    }
}

/// The position after an optional `-` at `p`.
pub open spec fn sp_dash(s: Seq<u8>, p: int) -> int {
    if 0 <= p < s.len() && s[p] == 45 {
        p + 1
    } else {
        p
    }
}

/// A calendar date: year, optional `-`, month, optional `-`, day.
pub open spec fn sp_date_ymd(s: Seq<u8>, p: int) -> Option<(int, Date)> {
    match sp_year(s, p) {
        Some((p1, year)) => {
            let p2 = sp_dash(s, p1);
            match sp_nd_range(s, p2, 2, 1, 12) {
                Some((p3, month)) => {
                    let p4 = sp_dash(s, p3);
                    match sp_nd_range(s, p4, 2, 1, 31) {
                        Some((p5, day)) => Some(
                            (
                                p5,
                                Date::Ymd {
                                    year: year as i32,
                                    month: month as u32,
                                    day: day as u32,
                                },
                            ),
                        ),
                        None => None,
                    }
                },
                None => None,
            }
        },
        None => None,
    }
}

/// A week date: year, optional `-`, `W`, week, optional `-`, weekday.
pub open spec fn sp_date_week(s: Seq<u8>, p: int) -> Option<(int, Date)> {
    match sp_year(s, p) {
        Some((p1, year)) => {
            let p2 = sp_dash(s, p1);
            if p2 < s.len() && s[p2] == 87 {
                match sp_nd_range(s, p2 + 1, 2, 1, 53) {
                    Some((p3, ww)) => {
                        let p4 = sp_dash(s, p3);
                        match sp_nd_range(s, p4, 1, 1, 7) {
                            Some((p5, d)) => Some(
                                (p5, Date::Week { year: year as i32, ww: ww as u32, d: d as u32 }),
                            ),
                            None => None,
                        }
                    },
                    None => None,
                }
            } else {
                None
            }
        },
        None => None,
    }
}

/// An ordinal date: year, optional `-`, day of year.
pub open spec fn sp_date_ord(s: Seq<u8>, p: int) -> Option<(int, Date)> {
    match sp_year(s, p) {
        Some((p1, year)) => {
            let p2 = sp_dash(s, p1);
            match sp_nd_range(s, p2, 3, 1, 366) {
                Some((p3, ddd)) => Some((p3, Date::Ordinal { year: year as i32, ddd: ddd as u32 })),
                None => None,
            }
        },
        None => None,
    }
}

/// A date in any of the three forms, tried in order.
pub open spec fn sp_date(s: Seq<u8>, p: int) -> Option<(int, Date)> {
    if sp_date_ymd(s, p) is Some {
        sp_date_ymd(s, p)
    } else if sp_date_week(s, p) is Some {
        sp_date_week(s, p)
    } else {
        sp_date_ord(s, p)
    }
}

/// The end of the run of digits starting at `p`.
pub open spec fn sp_digits_end(s: Seq<u8>, p: int) -> int
    decreases s.len() - p,
{
    if 0 <= p < s.len() && 48 <= s[p] <= 57 {
        sp_digits_end(s, p + 1)
    } else {
        p
    }
}

/// The milliseconds a run of fraction digits stands for: the first three
/// digits, scaled up where fewer are given (`.4` is 400 ms).
pub open spec fn sp_frac_ms(digits: Seq<u8>) -> int {
    if digits.len() == 0 {
        0
    } else if digits.len() == 1 {
        match dec_val_acc(digits, 0) {
            Some(v) => v * 100,
            None => 0,
        }
    } else if digits.len() == 2 {
        match dec_val_acc(digits, 0) {
            Some(v) => v * 10,
            None => 0,
        }
    } else {
        match dec_val_acc(digits.take(3), 0) {
            Some(v) => v,
            None => 0,
        }
    }
}

/// A zone offset: `Z`, or a sign, hours and optional minutes.
pub open spec fn sp_tz(s: Seq<u8>, p: int) -> Option<(int, (int, int))> {
    if 0 <= p < s.len() && s[p] == 90 {
        Some((p + 1, (0, 0)))
    } else if 0 <= p < s.len() && (s[p] == 43 || s[p] == 45) {
        let neg = s[p] == 45;
        match sp_nd_range(s, p + 1, 2, 0, 24) {
            Some((p1, h)) => {
                let sh: int = if neg {
                    -h
                } else {
                    h
                };
                let p2 = if p1 < s.len() && s[p1] == 58 {
                    p1 + 1
                } else {
                    p1
                };
                match sp_nd_range(s, p2, 2, 0, 59) {
                    Some((p3, m)) => Some(
                        (
                            p3,
                            (
                                sh,
                                if neg {
                                    -m
                                } else {
                                    m
                                },
                            ),
                        ),
                    ),
                    None => Some((p1, (sh, 0))),
                }
            },
            None => None,
        }
    } else {
        None
    }
}

/// A time: hours, optional `:`, minutes, then optional seconds, fraction
/// and zone offset.
pub open spec fn sp_time(s: Seq<u8>, p: int) -> Option<(int, Time)> {
    match sp_nd_range(s, p, 2, 0, 24) {
        Some((p1, hour)) => {
            let p2 = if p1 < s.len() && s[p1] == 58 {
                p1 + 1
            } else {
                p1
            };
            match sp_nd_range(s, p2, 2, 0, 59) {
                Some((p3, minute)) => {
                    // optional seconds, with their own optional `:`
                    let p4 = if p3 < s.len() && s[p3] == 58 {
                        p3 + 1
                    } else {
                        p3
                    };
                    let (p5, second) = match sp_nd_range(s, p4, 2, 0, 60) {
                        Some((q, v)) => (q, v),
                        None => (p3, 0int),
                    };
                    // optional fraction
                    let (p6, ms) = if p5 < s.len() && (s[p5] == 44 || s[p5] == 46) {
                        let e = sp_digits_end(s, p5 + 1);
                        (e, sp_frac_ms(s.subrange(p5 + 1, e)))
                    } else {
                        (p5, 0int)
                    };
                    // optional zone offset
                    let (p7, tz) = match sp_tz(s, p6) {
                        Some((q, z)) => (q, z),
                        None => (p6, (0int, 0int)),
                    };
                    Some(
                        (
                            p7,
                            Time {
                                hour: hour as u32,
                                minute: minute as u32,
                                second: second as u32,
                                millisecond: ms as u32,
                                tz_offset_hours: tz.0 as i32,
                                tz_offset_minutes: tz.1 as i32,
                            },
                        ),
                    )
                },
                None => None,
            }
        },
        None => None,
    }
}

/// What a `<dateTime.iso8601>` text stands for: a date, `T`, a time;
/// trailing input is ignored.
pub open spec fn datetime_text(s: Seq<u8>) -> Option<DateTime> {
    match sp_date(s, 0) {
        Some((p, date)) => if p < s.len() && s[p] == 84 {
            match sp_time(s, p + 1) {
                Some((q, time)) => Some(DateTime { date, time }),
                None => None,
            }
        } else {
            None
        },
        None => None,
    }
}

} // verus!

verus! {

/// Everything before the end of a digit run is a digit.
proof fn lemma_digits_end(s: Seq<u8>, p: int)
    requires
        0 <= p <= s.len(),
    ensures
        p <= sp_digits_end(s, p) <= s.len(),
        forall|k: int| p <= k < sp_digits_end(s, p) ==> 48 <= #[trigger] s[k] <= 57,
    decreases s.len() - p,
{
    if p < s.len() && 48 <= s[p] <= 57 {
        lemma_digits_end(s, p + 1);
    }
}

/// Reads exactly `n` decimal digits at `p`.
fn ex_nd(s: &[u8], p: usize, n: usize) -> (r: Option<(usize, u32)>)
    requires
        n <= 4,
    ensures
        r matches Some(qv) ==> sp_nd(s@, p as int, n as int) == Some((qv.0 as int, qv.1 as int))
            && qv.1 < 10000 && qv.0 == p + n,
        r is None ==> sp_nd(s@, p as int, n as int) is None,
{
    if p > s.len() || n > s.len() - p {
        return None;
    }
    let ghost sub = s@.subrange(p as int, p as int + n as int);
    let mut acc: u32 = 0;
    let mut t: usize = p;
    let end = p + n;
    proof {
        assert(s@.subrange(t as int, p as int + n as int) =~= sub);
    }
    while t < end
        invariant
            end == p + n,
            p <= t <= p + n <= s@.len(),
            n <= 4,
            sub == s@.subrange(p as int, p as int + n as int),
            dec_val_acc(sub, 0) == dec_val_acc(
                s@.subrange(t as int, p as int + n as int),
                acc as int,
            ),
            t - p == 0 ==> acc == 0,
            t - p == 1 ==> acc < 10,
            t - p == 2 ==> acc < 100,
            t - p == 3 ==> acc < 1000,
            t - p == 4 ==> acc < 10000,
        decreases p + n - t,
    {
        let ghost drest = s@.subrange(t as int, p as int + n as int);
        proof {
            assert(drest[0] == s@[t as int]);
            assert(drest.drop_first() =~= s@.subrange(t as int + 1, p as int + n as int));
        }
        let d = s[t];
        if d < 48 || d > 57 {
            proof {
                assert(dec_val_acc(sub, 0) is None);
            }
            return None;
        }
        acc = acc * 10 + (d - 48) as u32;
        t = t + 1;
    }
    proof {
        assert(s@.subrange(t as int, p as int + n as int) =~= Seq::<u8>::empty());
        assert(dec_val_acc(sub, 0) == Some(acc as int));
    }
    Some((t, acc))
}

/// Reads `n` digits whose value lies in `lo ..= hi`.
fn ex_nd_range(s: &[u8], p: usize, n: usize, lo: u32, hi: u32) -> (r: Option<(usize, u32)>)
    requires
        n <= 4,
    ensures
        r matches Some(qv) ==> sp_nd_range(s@, p as int, n as int, lo as int, hi as int) == Some(
            (qv.0 as int, qv.1 as int),
        ) && qv.1 < 10000 && qv.0 == p + n && lo <= qv.1 <= hi,
        r is None ==> sp_nd_range(s@, p as int, n as int, lo as int, hi as int) is None,
{
    match ex_nd(s, p, n) {
        Some((q, v)) => {
            if lo <= v && v <= hi {
                Some((q, v))
            } else {
                None
            }
        },
        None => None,
    }
}

/// Reads an optionally signed four-digit year.
fn ex_year(s: &[u8], p: usize) -> (r: Option<(usize, i32)>)
    ensures
        r matches Some(qv) ==> sp_year(s@, p as int) == Some((qv.0 as int, qv.1 as int))
            && -9999 <= qv.1 <= 9999 && p <= qv.0 <= s@.len(),
        r is None ==> sp_year(s@, p as int) is None,
{
    let (neg, q): (bool, usize) = if p < s.len() && (s[p] == 43 || s[p] == 45) {
        (s[p] == 45, p + 1)
    } else {
        (false, p)
    };
    match ex_nd(s, q, 4) {
        Some((r1, v)) => {
            let year: i32 = if neg {
                -(v as i32)
            } else {
                v as i32
            };
            Some((r1, year))
        },
        None => None,
    }
}

/// The position after an optional `-` at `p`.
fn ex_dash(s: &[u8], p: usize) -> (r: usize)
    requires
        p <= s@.len(),
    ensures
        r as int == sp_dash(s@, p as int),
        p <= r <= s@.len(),
{
    if p < s.len() && s[p] == 45 {
        p + 1
    } else {
        p
    }
}

fn ex_date_ymd(s: &[u8], p: usize) -> (r: Option<(usize, Date)>)
    ensures
        r matches Some(qv) ==> sp_date_ymd(s@, p as int) == Some((qv.0 as int, qv.1)) && qv.0
            <= s@.len(),
        r is None ==> sp_date_ymd(s@, p as int) is None,
{
    match ex_year(s, p) {
        Some((p1, year)) => {
            let p2 = ex_dash(s, p1);
            match ex_nd_range(s, p2, 2, 1, 12) {
                Some((p3, month)) => {
                    let p4 = ex_dash(s, p3);
                    match ex_nd_range(s, p4, 2, 1, 31) {
                        Some((p5, day)) => Some((p5, Date::Ymd { year, month, day })),
                        None => None,
                    }
                },
                None => None,
            }
        },
        None => None,
    }
}

fn ex_date_week(s: &[u8], p: usize) -> (r: Option<(usize, Date)>)
    ensures
        r matches Some(qv) ==> sp_date_week(s@, p as int) == Some((qv.0 as int, qv.1)) && qv.0
            <= s@.len(),
        r is None ==> sp_date_week(s@, p as int) is None,
{
    match ex_year(s, p) {
        Some((p1, year)) => {
            let p2 = ex_dash(s, p1);
            if p2 < s.len() && s[p2] == 87 {
                match ex_nd_range(s, p2 + 1, 2, 1, 53) {
                    Some((p3, ww)) => {
                        let p4 = ex_dash(s, p3);
                        match ex_nd_range(s, p4, 1, 1, 7) {
                            Some((p5, d)) => Some((p5, Date::Week { year, ww, d })),
                            None => None,
                        }
                    },
                    None => None,
                }
            } else {
                None
            }
        },
        None => None,
    }
}

fn ex_date_ord(s: &[u8], p: usize) -> (r: Option<(usize, Date)>)
    ensures
        r matches Some(qv) ==> sp_date_ord(s@, p as int) == Some((qv.0 as int, qv.1)) && qv.0
            <= s@.len(),
        r is None ==> sp_date_ord(s@, p as int) is None,
{
    match ex_year(s, p) {
        Some((p1, year)) => {
            let p2 = ex_dash(s, p1);
            match ex_nd_range(s, p2, 3, 1, 366) {
                Some((p3, ddd)) => Some((p3, Date::Ordinal { year, ddd })),
                None => None,
            }
        },
        None => None,
    }
}

fn ex_date(s: &[u8], p: usize) -> (r: Option<(usize, Date)>)
    ensures
        r matches Some(qv) ==> sp_date(s@, p as int) == Some((qv.0 as int, qv.1)) && qv.0
            <= s@.len(),
        r is None ==> sp_date(s@, p as int) is None,
{
    match ex_date_ymd(s, p) {
        Some(r) => Some(r),
        None => match ex_date_week(s, p) {
            Some(r) => Some(r),
            None => ex_date_ord(s, p),
        },
    }
}

/// The end of the run of digits starting at `p`.
fn ex_digits_end(s: &[u8], p: usize) -> (r: usize)
    requires
        p <= s@.len(),
    ensures
        r as int == sp_digits_end(s@, p as int),
        p <= r <= s@.len(),
{
    let mut t = p;
    while t < s.len() && 48 <= s[t] && s[t] <= 57
        invariant
            p <= t <= s@.len(),
            sp_digits_end(s@, p as int) == sp_digits_end(s@, t as int),
        decreases s@.len() - t,
    {
        t = t + 1;
    }
    t
}

/// The milliseconds the fraction digits `s[from..to]` stand for.
fn ex_frac_ms(s: &[u8], from: usize, to: usize) -> (r: u32)
    requires
        0 <= from <= to <= s@.len(),
        forall|k: int| from <= k < to ==> 48 <= #[trigger] s@[k] <= 57,
    ensures
        r as int == sp_frac_ms(s@.subrange(from as int, to as int)),
        r < 1000,
{
    let ghost digs = s@.subrange(from as int, to as int);
    let dlen = to - from;
    if dlen == 0 {
        return 0;
    }
    if dlen == 1 {
        let v = (s[from] - 48) as u32;
        proof {
            reveal_with_fuel(dec_val_acc, 4);
            assert(digs[0] == s@[from as int]);
            assert(digs.drop_first() =~= Seq::<u8>::empty());
            assert(dec_val_acc(digs, 0) == Some((s@[from as int] - 48) as int));
        }
        return v * 100;
    }
    if dlen == 2 {
        let v = ((s[from] - 48) as u32) * 10 + (s[from + 1] - 48) as u32;
        proof {
            reveal_with_fuel(dec_val_acc, 4);
            assert(digs[0] == s@[from as int]);
            assert(digs.drop_first()[0] == s@[from as int + 1]);
            assert(digs.drop_first().drop_first() =~= Seq::<u8>::empty());
            assert(dec_val_acc(digs, 0) == Some(
                (s@[from as int] - 48) * 10 + (s@[from as int + 1] - 48),
            ));
        }
        return v * 10;
    }
    let v = ((s[from] - 48) as u32) * 100 + ((s[from + 1] - 48) as u32) * 10 + (s[from + 2]
        - 48) as u32;
    proof {
        reveal_with_fuel(dec_val_acc, 5);
        let d3 = digs.take(3);
        assert(d3[0] == s@[from as int]);
        assert(d3.drop_first()[0] == s@[from as int + 1]);
        assert(d3.drop_first().drop_first()[0] == s@[from as int + 2]);
        assert(d3.drop_first().drop_first().drop_first() =~= Seq::<u8>::empty());
        assert(dec_val_acc(d3, 0) == Some(
            ((s@[from as int] - 48) * 10 + (s@[from as int + 1] - 48)) * 10 + (s@[from as int + 2]
                - 48),
        ));
    }
    v
}

/// Reads a zone offset.
fn ex_tz(s: &[u8], p: usize) -> (r: Option<(usize, (i32, i32))>)
    requires
        p <= s@.len(),
    ensures
        r matches Some(qv) ==> sp_tz(s@, p as int) == Some(
            (qv.0 as int, ((qv.1).0 as int, (qv.1).1 as int)),
        ) && qv.0 <= s@.len(),
        r is None ==> sp_tz(s@, p as int) is None,
{
    if p < s.len() && s[p] == 90 {
        proof {
            assert(sp_tz(s@, p as int) == Some((p as int + 1, (0int, 0int))));
        }
        return Some((p + 1, (0, 0)));
    }
    if p < s.len() && (s[p] == 43 || s[p] == 45) {
        let neg = s[p] == 45;
        match ex_nd_range(s, p + 1, 2, 0, 24) {
            Some((p1, h)) => {
                let hh: i32 = if neg {
                    -(h as i32)
                } else {
                    h as i32
                };

                let p2 = if p1 < s.len() && s[p1] == 58 {
                    p1 + 1
                } else {
                    p1
                };
                match ex_nd_range(s, p2, 2, 0, 59) {
                    Some((p3, m)) => {
                        let mm: i32 = if neg {
                            -(m as i32)
                        } else {
                            m as i32
                        };
                        Some((p3, (hh, mm)))
                    },
                    None => Some((p1, (hh, 0))),
                }
            },
            None => None,
        }
    } else {
        None
    }
}

/// Reads a time with its optional parts.
fn ex_time(s: &[u8], p: usize) -> (r: Option<(usize, Time)>)
    ensures
        r matches Some(qv) ==> sp_time(s@, p as int) == Some((qv.0 as int, qv.1)),
        r is None ==> sp_time(s@, p as int) is None,
{
    match ex_nd_range(s, p, 2, 0, 24) {
        Some((p1, hour)) => {
            let p2 = if p1 < s.len() && s[p1] == 58 {
                p1 + 1
            } else {
                p1
            };
            match ex_nd_range(s, p2, 2, 0, 59) {
                Some((p3, minute)) => {
                    let p4 = if p3 < s.len() && s[p3] == 58 {
                        p3 + 1
                    } else {
                        p3
                    };
                    let (p5, second): (usize, u32) = match ex_nd_range(s, p4, 2, 0, 60) {
                        Some((q, v)) => (q, v),
                        None => (p3, 0),
                    };
                    let (p6, ms): (usize, u32) = if p5 < s.len() && (s[p5] == 44 || s[p5] == 46) {
                        let e = ex_digits_end(s, p5 + 1);
                        proof {
                            lemma_digits_end(s@, p5 as int + 1);
                        }
                        (e, ex_frac_ms(s, p5 + 1, e))
                    } else {
                        (p5, 0)
                    };
                    let (p7, tz): (usize, (i32, i32)) = match ex_tz(s, p6) {
                        Some((q, z)) => (q, z),
                        None => (p6, (0, 0)),
                    };
                    Some(
                        (
                            p7,
                            Time {
                                hour,
                                minute,
                                second,
                                millisecond: ms,
                                tz_offset_hours: tz.0,
                                tz_offset_minutes: tz.1,
                            },
                        ),
                    )
                },
                None => None,
            }
        },
        None => None,
    }
}

/// Parses `<dateTime.iso8601>` content. Trailing input after a complete
/// date and time is ignored.
pub fn parse_datetime(s: &[u8]) -> (r: Option<DateTime>)
    ensures
        r == datetime_text(s@),
{
    match ex_date(s, 0) {
        Some((p, date)) => {
            if p < s.len() && s[p] == 84 {
                match ex_time(s, p + 1) {
                    Some((_q, time)) => Some(DateTime { date, time }),
                    None => None,
                }
            } else {
                None
            }
        },
        None => None,
    }
}

} // verus!

verus! {

/// A date and time the formatter supports: a calendar (year, month, day)
/// date. Week and ordinal dates are not written; they must be converted
/// before encoding. The extreme negative values are excluded so that the
/// sign logic is total.
pub open spec fn dt_fmt_ok(dt: DateTime) -> bool {
    &&& dt.date is Ymd
    &&& match dt.date {
        Date::Ymd { year, .. } => year > i32::MIN,
        _ => true,
    }
    &&& dt.time.tz_offset_hours > i32::MIN
    &&& dt.time.tz_offset_minutes > i32::MIN
}

/// A year as `{:04}` renders it: four digits, with a sign where negative.
pub open spec fn pad4_signed(n: int) -> Seq<u8> {
    if n >= 0 {
        crate::numtext::dec_pad4(n)
    } else {
        seq![45u8] + crate::numtext::dec_pad3(-n)
    }
}

/// The fraction the formatter appends: `.` and the milliseconds as three
/// digits, only when they are nonzero.
pub open spec fn frac_seg(t: Time) -> Seq<u8> {
    if t.millisecond > 0 {
        seq![46u8] + crate::numtext::dec_pad3(t.millisecond as int)
    } else {
        Seq::empty()
    }
}

/// Whether the offset as a whole is negative: the hours decide, and the
/// minutes where the hours are zero.
pub open spec fn tz_negative(t: Time) -> bool {
    t.tz_offset_hours < 0 || (t.tz_offset_hours == 0 && t.tz_offset_minutes < 0)
}

/// The zone offset the formatter appends: a signed `HH:MM`, only when the
/// offset is nonzero. The sign comes from the pair, so zero hours with
/// negative minutes still carry `-`.
pub open spec fn tz_seg(t: Time) -> Seq<u8> {
    if t.tz_offset_hours != 0 || t.tz_offset_minutes != 0 {
        (if tz_negative(t) {
            seq![45u8]
        } else {
            seq![43u8]
        }) + dec_pad2(
            if t.tz_offset_hours < 0 {
                -(t.tz_offset_hours as int)
            } else {
                t.tz_offset_hours as int
            },
        ) + seq![58u8] + dec_pad2(
            if t.tz_offset_minutes < 0 {
                -(t.tz_offset_minutes as int)
            } else {
                t.tz_offset_minutes as int
            },
        )
    } else {
        Seq::empty()
    }
}

/// The formatted time of day: `HH:MM:SS` with the optional fraction and
/// zone offset.
pub open spec fn time_seg(t: Time) -> Seq<u8> {
    dec_pad2(t.hour as int) + seq![58u8] + dec_pad2(t.minute as int) + seq![58u8] + dec_pad2(
        t.second as int,
    ) + frac_seg(t) + tz_seg(t)
}

/// The formatted text of a date and time: `YYYYMMDDTHH:MM:SS`, with the
/// fraction appended only when nonzero, and the signed `HH:MM` offset only
/// when the offset is nonzero.
pub open spec fn format_dt(dt: DateTime) -> Seq<u8> {
    match dt.date {
        Date::Ymd { year, month, day } => pad4_signed(year as int) + dec_pad2(month as int)
            + dec_pad2(day as int) + seq![84u8] + time_seg(dt.time),
        _ => Seq::empty(),
    }
}

/// Writes the time of day: `HH:MM:SS` with the optional fraction and
/// zone offset.
#[verifier::rlimit(100)]
#[verifier::spinoff_prover]
fn push_time_seg(out: &mut Vec<u8>, t: &Time)
    requires
        t.tz_offset_hours > i32::MIN,
        t.tz_offset_minutes > i32::MIN,
    ensures
        final (out)@ == old(out)@ + time_seg(*t),
{
    push_dec_pad2(out, t.hour);
    out.push(58);
    push_dec_pad2(out, t.minute);
    out.push(58);
    push_dec_pad2(out, t.second);
    let ghost head = out@;
    proof {
        assert(head =~= old(out)@ + (dec_pad2(t.hour as int) + seq![58u8] + dec_pad2(
            t.minute as int,
        ) + seq![58u8] + dec_pad2(t.second as int)));
    }
    if t.millisecond > 0 {
        out.push(46);
        crate::numtext::push_dec_pad3(out, t.millisecond);
    }
    let ghost with_frac = out@;
    proof {
        assert(with_frac =~= head + frac_seg(*t));
    }
    if t.tz_offset_hours != 0 || t.tz_offset_minutes != 0 {
        if t.tz_offset_hours < 0 || (t.tz_offset_hours == 0 && t.tz_offset_minutes < 0) {
            out.push(45);
        } else {
            out.push(43);
        }
        let ah: u32 = if t.tz_offset_hours < 0 {
            (-t.tz_offset_hours) as u32
        } else {
            t.tz_offset_hours as u32
        };
        push_dec_pad2(out, ah);
        out.push(58);
        let am: u32 = if t.tz_offset_minutes < 0 {
            (-t.tz_offset_minutes) as u32
        } else {
            t.tz_offset_minutes as u32
        };
        push_dec_pad2(out, am);
    }
    proof {
        assert(out@ =~= with_frac + tz_seg(*t));
        assert(out@ =~= old(out)@ + time_seg(*t));
    }
}

/// Formats a date and time for the wire.
#[verifier::rlimit(100)]
#[verifier::spinoff_prover]
pub fn format_datetime(dt: &DateTime) -> (r: Vec<u8>)
    requires
        dt_fmt_ok(*dt),
    ensures
        r@ == format_dt(*dt),
{
    let mut out: Vec<u8> = Vec::new();
    match dt.date {
        Date::Ymd { year, month, day } => {
            if year >= 0 {
                crate::numtext::push_dec_pad4(&mut out, year as u32);
            } else {
                out.push(45);
                crate::numtext::push_dec_pad3(&mut out, (-year) as u32);
            }
            push_dec_pad2(&mut out, month);
            push_dec_pad2(&mut out, day);
            out.push(84);
            let ghost head = out@;
            proof {
                assert(head =~= pad4_signed(year as int) + dec_pad2(month as int) + dec_pad2(
                    day as int,
                ) + seq![84u8]);
            }
            push_time_seg(&mut out, &dt.time);
            proof {
                assert(out@ =~= format_dt(*dt));
            }
        },
        _ => {
            proof {
                assert(false);
            }
        },
    }
    out
}

} // verus!

verus! {

/// The end of a digit run is exactly the first non-digit position.
proof fn lemma_digits_end_exact(s: Seq<u8>, p: int, q: int)
    requires
        0 <= p <= q <= s.len(),
        forall|k: int| p <= k < q ==> 48 <= #[trigger] s[k] <= 57,
        q == s.len() || !(48 <= s[q] <= 57),
    ensures
        sp_digits_end(s, p) == q,
    decreases q - p,
{
    if p < q {
        lemma_digits_end_exact(s, p + 1, q);
    }
}

/// A two-digit field at `p` reads as its value.
proof fn lemma_field2(s: Seq<u8>, p: int, v: int, lo: int, hi: int)
    requires
        0 <= p,
        p + 2 <= s.len(),
        s.subrange(p, p + 2) == crate::numtext::dec_pad2(v),
        0 <= v <= 99,
        lo <= v <= hi,
    ensures
        sp_nd_range(s, p, 2, lo, hi) == Some((p + 2, v)),
        sp_nd(s, p, 2) == Some((p + 2, v)),
        48 <= s[p] <= 57,
    decreases 0int,
{
    crate::numtext::lemma_pad2_props(v);
    assert(s[p] == crate::numtext::dec_pad2(v)[0]);
}

/// An unsigned four-digit year at the head reads as its value.
proof fn lemma_field_year(s: Seq<u8>, v: int)
    requires
        4 <= s.len(),
        s.subrange(0, 4) == crate::numtext::dec_pad4(v),
        0 <= v <= 9999,
    ensures
        sp_year(s, 0) == Some((4int, v)),
        48 <= s[0] <= 57,
{
    crate::numtext::lemma_pad4_props(v);
    assert(s[0] == crate::numtext::dec_pad4(v)[0]);
}

/// A date and time in the shape the wire format writes back exactly: a
/// calendar date with a non-negative four-digit year, time fields in their
/// wire ranges, and a zone offset whose parts do not mix signs (the text
/// carries one sign for both).
pub open spec fn dt_canonical(dt: DateTime) -> bool {
    let t = dt.time;
    &&& match dt.date {
        Date::Ymd { year, month, day } => 0 <= year <= 9999 && 1 <= month <= 12 && 1 <= day <= 31,
        _ => false,
    }
    &&& t.hour <= 24
    &&& t.minute <= 59
    &&& t.second <= 60
    &&& t.millisecond <= 999
    &&& -24 <= t.tz_offset_hours <= 24
    &&& -59 <= t.tz_offset_minutes <= 59
    &&& ((t.tz_offset_hours >= 0 && t.tz_offset_minutes >= 0) || (t.tz_offset_hours <= 0
        && t.tz_offset_minutes <= 0))
}

/// Round-trip: a canonical date and time, formatted for the wire, parses
/// back to exactly the same fields.
#[verifier::rlimit(100)]
#[verifier::spinoff_prover]
pub proof fn lemma_format_parse_roundtrip(dt: DateTime)
    requires
        dt_canonical(dt),
    ensures
        datetime_text(format_dt(dt)) == Some(dt),
{
    let t = dt.time;
    match dt.date {
        Date::Ymd { year, month, day } => {
            let sy = crate::numtext::dec_pad4(year as int);
            let smo = dec_pad2(month as int);
            let sd = dec_pad2(day as int);
            let sh = dec_pad2(t.hour as int);
            let smi = dec_pad2(t.minute as int);
            let ss = dec_pad2(t.second as int);
            let frac: Seq<u8> = if t.millisecond > 0 {
                seq![46u8] + crate::numtext::dec_pad3(t.millisecond as int)
            } else {
                Seq::empty()
            };
            let tzh = t.tz_offset_hours as int;
            let tzm = t.tz_offset_minutes as int;
            let ah: int = if tzh < 0 {
                -tzh
            } else {
                tzh
            };
            let am: int = if tzm < 0 {
                -tzm
            } else {
                tzm
            };
            let tzsgn: u8 = if tz_negative(t) {
                45
            } else {
                43
            };
            let tzseg: Seq<u8> = if tzh != 0 || tzm != 0 {
                seq![tzsgn] + dec_pad2(ah) + seq![58u8] + dec_pad2(am)
            } else {
                Seq::empty()
            };
            crate::numtext::lemma_pad4_props(year as int);
            crate::numtext::lemma_pad2_props(month as int);
            crate::numtext::lemma_pad2_props(day as int);
            crate::numtext::lemma_pad2_props(t.hour as int);
            crate::numtext::lemma_pad2_props(t.minute as int);
            crate::numtext::lemma_pad2_props(t.second as int);
            crate::numtext::lemma_pad2_props(ah);
            crate::numtext::lemma_pad2_props(am);
            let s = format_dt(dt);
            assert(s =~= sy + smo + sd + seq![84u8] + sh + seq![58u8] + smi + seq![58u8] + ss + frac
                + tzseg);
            let fl: int = frac.len() as int;
            let zl: int = tzseg.len() as int;
            assert(s.len() == 17 + fl + zl);
            assert(s.subrange(0, 4) =~= sy);
            assert(s.subrange(4, 6) =~= smo);
            assert(s.subrange(6, 8) =~= sd);
            assert(s[8] == 84);
            assert(s.subrange(9, 11) =~= sh);
            assert(s[11] == 58);
            assert(s.subrange(12, 14) =~= smi);
            assert(s[14] == 58);
            assert(s.subrange(15, 17) =~= ss);
            // the date
            lemma_field_year(s, year as int);
            lemma_field2(s, 4, month as int, 1, 12);
            lemma_field2(s, 6, day as int, 1, 31);
            assert(sp_dash(s, 4) == 4);
            assert(sp_dash(s, 6) == 6);
            assert(sp_date_ymd(s, 0) == Some((8int, dt.date)));
            assert(sp_date(s, 0) == Some((8int, dt.date)));
            // the time
            lemma_field2(s, 9, t.hour as int, 0, 24);
            lemma_field2(s, 12, t.minute as int, 0, 59);
            lemma_field2(s, 15, t.second as int, 0, 60);
            // the fraction
            let p6: int = 17 + fl;
            if t.millisecond > 0 {
                crate::numtext::lemma_pad3_props(t.millisecond as int);
                assert(fl == 4);
                assert(s[17] == 46);
                assert(s.subrange(18, 21) =~= crate::numtext::dec_pad3(t.millisecond as int));
                assert forall|k: int| 18 <= k < 21 implies 48 <= #[trigger] s[k] <= 57 by {
                    assert(s[k] == crate::numtext::dec_pad3(t.millisecond as int)[k - 18]);
                }
                if p6 < s.len() {
                    assert(s[p6] == tzseg[0]);
                    assert(!(48 <= s[p6] <= 57));
                }
                lemma_digits_end_exact(s, 18, 21);
                assert(s.subrange(18, 21).take(3) =~= crate::numtext::dec_pad3(
                    t.millisecond as int,
                ));
                assert(sp_frac_ms(s.subrange(18, 21)) == t.millisecond as int);
            } else {
                if 17 < s.len() {
                    assert(s[17] == tzseg[0]);
                    assert(s[17] == 43 || s[17] == 45);
                }
            }
            // the zone offset
            if tzh != 0 || tzm != 0 {
                assert(s[p6] == tzsgn);
                assert(s.subrange(p6 + 1, p6 + 3) =~= dec_pad2(ah));
                assert(s[p6 + 3] == 58);
                assert(s.subrange(p6 + 4, p6 + 6) =~= dec_pad2(am));
                lemma_field2(s, p6 + 1, ah, 0, 24);
                lemma_field2(s, p6 + 4, am, 0, 59);
                if tz_negative(t) {
                    assert(s[p6] == 45);
                    assert(-ah == tzh && -am == tzm);
                } else {
                    assert(s[p6] == 43);
                    assert(ah == tzh && am == tzm);
                }
                assert(sp_tz(s, p6) == Some((p6 + 6, (tzh, tzm))));
            } else {
                assert(p6 == s.len());
                assert(sp_tz(s, p6) is None);
            }
            assert(sp_time(s, 9) == Some(
                (
                    (17 + fl + zl) as int,
                    Time {
                        hour: t.hour,
                        minute: t.minute,
                        second: t.second,
                        millisecond: t.millisecond,
                        tz_offset_hours: t.tz_offset_hours,
                        tz_offset_minutes: t.tz_offset_minutes,
                    },
                ),
            ));
            assert(datetime_text(s) == Some(dt));
        },
        _ => {
            assert(false);
        },
    }
}

} // verus!
