//! The `DURATION` value grammar: an optional sign, literal `P`, then exactly
//! one of a day count (optionally followed by a time-of-day span), a bare
//! time-of-day span, or a week count. The denotation is a signed number of
//! seconds.
use vstd::prelude::*;

use crate::scan::{all_digits, digit_run, digit_val, digits_val, digit_run_end, digits_to_u64, is_digit,
    lemma_digit_run_is, lemma_digits_val_nonneg};
use crate::property::Property;
use crate::{Error, ICalTypes};

verus! {

/// A parsed `DURATION` value: a signed span in whole seconds. Its magnitude
/// never exceeds `i64::MAX`, so negation is always exact.
#[derive(Clone, Copy, Debug, PartialEq, Eq, Structural)]
pub struct ICalDuration {
    pub seconds: i64,
}

// --- grammar denotations, each consuming an entire suffix -------------------
/// `<digits>S`, in seconds.
pub open spec fn dur_sec_part(s: Seq<char>) -> Option<int> {
    let k = digit_run(s);
    if k >= 1 && k == s.len() - 1 && s[k] == 'S' {
        Some(digits_val(s.subrange(0, k)))
    } else {
        None
    }
}

/// `<digits>M[<digits>S]`, in seconds.
pub open spec fn dur_min_part(s: Seq<char>) -> Option<int> {
    let k = digit_run(s);
    if k >= 1 && k < s.len() && s[k] == 'M' {
        let m = digits_val(s.subrange(0, k));
        let rest = s.subrange(k + 1, s.len() as int);
        if rest.len() == 0 {
            Some(m * 60)
        } else {
            match dur_sec_part(rest) {
                Some(v) => Some(m * 60 + v),
                None => None,
            }
        }
    } else {
        None
    }
}

/// `<digits>H[<digits>M[<digits>S]]`, in seconds.
pub open spec fn dur_hour_part(s: Seq<char>) -> Option<int> {
    let k = digit_run(s);
    if k >= 1 && k < s.len() && s[k] == 'H' {
        let h = digits_val(s.subrange(0, k));
        let rest = s.subrange(k + 1, s.len() as int);
        if rest.len() == 0 {
            Some(h * 3600)
        } else {
            match dur_min_part(rest) {
                Some(v) => Some(h * 3600 + v),
                None => None,
            }
        }
    } else {
        None
    }
}

/// `T` followed by an hours, minutes, or seconds span (first match wins).
pub open spec fn dur_time_part(s: Seq<char>) -> Option<int> {
    if s.len() < 1 || s[0] != 'T' {
        None
    } else {
        let rest = s.subrange(1, s.len() as int);
        if dur_hour_part(rest) is Some {
            dur_hour_part(rest)
        } else if dur_min_part(rest) is Some {
            dur_min_part(rest)
        } else {
            dur_sec_part(rest)
        }
    }
}

/// The body after `P`: days (optionally with a time span), a bare time span,
/// or weeks.
pub open spec fn dur_body(s: Seq<char>) -> Option<int> {
    if s.len() == 0 {
        None
    } else if s[0] == 'T' {
        dur_time_part(s)
    } else {
        let k = digit_run(s);
        if k >= 1 && k < s.len() && s[k] == 'D' {
            let d = digits_val(s.subrange(0, k));
            let rest = s.subrange(k + 1, s.len() as int);
            if rest.len() == 0 {
                Some(d * 86400)
            } else {
                match dur_time_part(rest) {
                    Some(v) => Some(d * 86400 + v),
                    None => None,
                }
            }
        } else if k >= 1 && k == s.len() - 1 && s[k] == 'W' {
            Some(digits_val(s.subrange(0, k)) * 604800)
        } else {
            None
        }
    }
}

/// The seconds denoted by a whole `DURATION` text, unbounded.
pub open spec fn dur_text_val(s: Seq<char>) -> Option<int> {
    if s.len() == 0 {
        None
    } else {
        let neg = s[0] == '-';
        let i: int = if s[0] == '-' || s[0] == '+' {
            1
        } else {
            0
        };
        if s.len() > i && s[i] == 'P' {
            match dur_body(s.subrange(i + 1, s.len() as int)) {
                Some(v) => Some(
                    if neg {
                        -v
                    } else {
                        v
                    },
                ),
                None => None,
            }
        } else {
            None
        }
    }
}

/// The text matches the duration grammar and its span's magnitude fits in an
/// `i64` of seconds (numeric overflow is a decode failure).
pub open spec fn dur_text_in_range(s: Seq<char>) -> bool {
    match dur_text_val(s) {
        Some(v) => -0x7fff_ffff_ffff_ffff <= v <= 0x7fff_ffff_ffff_ffff,
        None => false,
    }
}

/// A `DURATION` property decodes iff its text matches the grammar and the
/// span's magnitude fits in an `i64` of seconds.
pub open spec fn duration_decode_ok(p: Property) -> bool {
    match p.value {
        Some(s) => dur_text_in_range(s@),
        None => false,
    }
}

// --- proofs about the denotations -------------------------------------------
pub proof fn lemma_dur_parts_nonneg(s: Seq<char>)
    ensures
        dur_sec_part(s) matches Some(v) ==> v >= 0,
        dur_min_part(s) matches Some(v) ==> v >= 0,
        dur_hour_part(s) matches Some(v) ==> v >= 0,
        dur_time_part(s) matches Some(v) ==> v >= 0,
        dur_body(s) matches Some(v) ==> v >= 0,
    decreases s.len(),
{
    let k = digit_run(s);
    crate::scan::lemma_digit_run_bounds(s);
    if k >= 1 {
        assert(all_digits(s.subrange(0, k)));
        lemma_digits_val_nonneg(s.subrange(0, k));
        let n = digits_val(s.subrange(0, k));
        assert(n * 60 >= 0 && n * 3600 >= 0 && n * 86400 >= 0 && n * 604800 >= 0)
            by (nonlinear_arith)
            requires
                n >= 0,
        ;
        if k < s.len() {
            let rest = s.subrange(k + 1, s.len() as int);
            lemma_dur_parts_nonneg(rest);
        }
    }
    if s.len() >= 1 && s[0] == 'T' {
        let rest = s.subrange(1, s.len() as int);
        lemma_dur_parts_nonneg(rest);
    }
}

/// Translates an exec digit scan on `s[i..len]` into the digit run of the
/// suffix sequence.
proof fn lemma_run_at(s: Seq<char>, i: int, len: int, j: int)
    requires
        0 <= i <= j <= len <= s.len(),
        forall|k: int| i <= k < j ==> is_digit(#[trigger] s[k]),
        j < len ==> !is_digit(s[j]),
    ensures
        digit_run(s.subrange(i, len)) == j - i,
{
    let t = s.subrange(i, len);
    assert forall|x: int| 0 <= x < j - i implies is_digit(#[trigger] t[x]) by {
        assert(t[x] == s[i + x]);
    }
    if j < len {
        assert(t[j - i] == s[j]);
    }
    lemma_digit_run_is(t, j - i);
}

// --- exec parsers over `s[i..len]`, each consuming the whole range ----------
/// Decodes `<digits>S` from `s[i..len]`.
fn parse_dur_sec(s: &str, i: usize, len: usize) -> (r: Option<u64>)
    requires
        i <= len,
        len == s@.len(),
    ensures
        match r {
            Some(v) => dur_sec_part(s@.subrange(i as int, len as int)) == Some(v as int),
            None => match dur_sec_part(s@.subrange(i as int, len as int)) {
                Some(v) => v > u64::MAX,
                None => true,
            },
        },
{
    let ghost t = s@.subrange(i as int, len as int);
    let j = digit_run_end(s, i, len);
    proof {
        lemma_run_at(s@, i as int, len as int, j as int);
    }
    if j == i || j >= len || j + 1 != len {
        return None;
    }
    if s.get_char(j) != 'S' {
        proof {
            assert(t[j - i] == s@[j as int]);
        }
        return None;
    }
    proof {
        assert(t[j - i] == s@[j as int]);
        assert(t.subrange(0, j - i) =~= s@.subrange(i as int, j as int));
    }
    digits_to_u64(s, i, j)
}

/// Decodes `<digits>M[<digits>S]` from `s[i..len]`.
fn parse_dur_min(s: &str, i: usize, len: usize) -> (r: Option<u64>)
    requires
        i <= len,
        len == s@.len(),
    ensures
        match r {
            Some(v) => dur_min_part(s@.subrange(i as int, len as int)) == Some(v as int),
            None => match dur_min_part(s@.subrange(i as int, len as int)) {
                Some(v) => v > u64::MAX,
                None => true,
            },
        },
{
    let ghost t = s@.subrange(i as int, len as int);
    let j = digit_run_end(s, i, len);
    proof {
        lemma_run_at(s@, i as int, len as int, j as int);
    }
    if j == i || j >= len {
        return None;
    }
    proof {
        assert(t[j - i] == s@[j as int]);
    }
    if s.get_char(j) != 'M' {
        return None;
    }
    proof {
        assert(t.subrange(0, j - i) =~= s@.subrange(i as int, j as int));
        assert(all_digits(s@.subrange(i as int, j as int)));
        lemma_digits_val_nonneg(s@.subrange(i as int, j as int));
        assert(t.subrange(j - i + 1, t.len() as int) =~= s@.subrange(j as int + 1, len as int));
        lemma_dur_parts_nonneg(s@.subrange(j as int + 1, len as int));
    }
    let m = match digits_to_u64(s, i, j) {
        Some(v) => v,
        None => {
            proof {
                let mv = digits_val(s@.subrange(i as int, j as int));
                assert(mv * 60 >= mv) by (nonlinear_arith)
                    requires
                        mv >= 0,
                ;
            }
            return None;
        },
    };
    let base = match m.checked_mul(60) {
        Some(v) => v,
        None => {
            proof {
                let mv = digits_val(s@.subrange(i as int, j as int));
                assert(mv * 60 > u64::MAX ==> mv * 60 + 0 > u64::MAX);
            }
            return None;
        },
    };
    if j + 1 == len {
        return Some(base);
    }
    match parse_dur_sec(s, j + 1, len) {
        Some(sv) => match base.checked_add(sv) {
            Some(total) => Some(total),
            None => None,
        },
        None => None,
    }
}

/// Decodes `<digits>H[<digits>M[<digits>S]]` from `s[i..len]`.
fn parse_dur_hour(s: &str, i: usize, len: usize) -> (r: Option<u64>)
    requires
        i <= len,
        len == s@.len(),
    ensures
        match r {
            Some(v) => dur_hour_part(s@.subrange(i as int, len as int)) == Some(v as int),
            None => match dur_hour_part(s@.subrange(i as int, len as int)) {
                Some(v) => v > u64::MAX,
                None => true,
            },
        },
{
    let ghost t = s@.subrange(i as int, len as int);
    let j = digit_run_end(s, i, len);
    proof {
        lemma_run_at(s@, i as int, len as int, j as int);
    }
    if j == i || j >= len {
        return None;
    }
    proof {
        assert(t[j - i] == s@[j as int]);
    }
    if s.get_char(j) != 'H' {
        return None;
    }
    proof {
        assert(t.subrange(0, j - i) =~= s@.subrange(i as int, j as int));
        assert(all_digits(s@.subrange(i as int, j as int)));
        lemma_digits_val_nonneg(s@.subrange(i as int, j as int));
        assert(t.subrange(j - i + 1, t.len() as int) =~= s@.subrange(j as int + 1, len as int));
        lemma_dur_parts_nonneg(s@.subrange(j as int + 1, len as int));
    }
    let h = match digits_to_u64(s, i, j) {
        Some(v) => v,
        None => {
            proof {
                let hv = digits_val(s@.subrange(i as int, j as int));
                assert(hv * 3600 >= hv) by (nonlinear_arith)
                    requires
                        hv >= 0,
                ;
            }
            return None;
        },
    };
    let base = match h.checked_mul(3600) {
        Some(v) => v,
        None => {
            return None;
        },
    };
    if j + 1 == len {
        return Some(base);
    }
    match parse_dur_min(s, j + 1, len) {
        Some(mv) => match base.checked_add(mv) {
            Some(total) => Some(total),
            None => None,
        },
        None => None,
    }
}

/// Decodes `T` + time span from `s[i..len]`.
fn parse_dur_time(s: &str, i: usize, len: usize) -> (r: Option<u64>)
    requires
        i <= len,
        len == s@.len(),
    ensures
        match r {
            Some(v) => dur_time_part(s@.subrange(i as int, len as int)) == Some(v as int),
            None => match dur_time_part(s@.subrange(i as int, len as int)) {
                Some(v) => v > u64::MAX,
                None => true,
            },
        },
{
    let ghost t = s@.subrange(i as int, len as int);
    if i >= len {
        return None;
    }
    proof {
        assert(t[0] == s@[i as int]);
    }
    if s.get_char(i) != 'T' {
        return None;
    }
    let ghost rest = t.subrange(1, t.len() as int);
    proof {
        assert(rest =~= s@.subrange(i as int + 1, len as int));
    }
    let j = digit_run_end(s, i + 1, len);
    proof {
        lemma_run_at(s@, i as int + 1, len as int, j as int);
    }
    if j == i + 1 || j >= len {
        proof {
            assert(dur_hour_part(rest) is None);
            assert(dur_min_part(rest) is None);
            assert(dur_sec_part(rest) is None);
        }
        return None;
    }
    proof {
        assert(rest[j - i - 1] == s@[j as int]);
    }
    let c = s.get_char(j);
    if c == 'H' {
        parse_dur_hour(s, i + 1, len)
    } else if c == 'M' {
        proof {
            assert(dur_hour_part(rest) is None);
        }
        parse_dur_min(s, i + 1, len)
    } else if c == 'S' {
        proof {
            assert(dur_hour_part(rest) is None);
            assert(dur_min_part(rest) is None);
        }
        parse_dur_sec(s, i + 1, len)
    } else {
        proof {
            assert(dur_hour_part(rest) is None);
            assert(dur_min_part(rest) is None);
            assert(dur_sec_part(rest) is None);
        }
        None
    }
}

/// Decodes the post-`P` body from `s[i..len]`.
fn parse_dur_body(s: &str, i: usize, len: usize) -> (r: Option<u64>)
    requires
        i <= len,
        len == s@.len(),
    ensures
        match r {
            Some(v) => dur_body(s@.subrange(i as int, len as int)) == Some(v as int),
            None => match dur_body(s@.subrange(i as int, len as int)) {
                Some(v) => v > u64::MAX,
                None => true,
            },
        },
{
    let ghost t = s@.subrange(i as int, len as int);
    if i >= len {
        return None;
    }
    proof {
        assert(t[0] == s@[i as int]);
    }
    if s.get_char(i) == 'T' {
        return parse_dur_time(s, i, len);
    }
    let j = digit_run_end(s, i, len);
    proof {
        lemma_run_at(s@, i as int, len as int, j as int);
    }
    if j == i || j >= len {
        return None;
    }
    proof {
        assert(t[j - i] == s@[j as int]);
        assert(t.subrange(0, j - i) =~= s@.subrange(i as int, j as int));
        assert(all_digits(s@.subrange(i as int, j as int)));
        lemma_digits_val_nonneg(s@.subrange(i as int, j as int));
    }
    let c = s.get_char(j);
    if c == 'D' {
        proof {
            assert(t.subrange(j - i + 1, t.len() as int) =~= s@.subrange(
                j as int + 1,
                len as int,
            ));
            lemma_dur_parts_nonneg(s@.subrange(j as int + 1, len as int));
        }
        let d = match digits_to_u64(s, i, j) {
            Some(v) => v,
            None => {
                proof {
                    let dv = digits_val(s@.subrange(i as int, j as int));
                    assert(dv * 86400 >= dv) by (nonlinear_arith)
                        requires
                            dv >= 0,
                    ;
                }
                return None;
            },
        };
        let base = match d.checked_mul(86400) {
            Some(v) => v,
            None => {
                return None;
            },
        };
        if j + 1 == len {
            return Some(base);
        }
        match parse_dur_time(s, j + 1, len) {
            Some(tv) => match base.checked_add(tv) {
                Some(total) => Some(total),
                None => None,
            },
            None => None,
        }
    } else if c == 'W' {
        if j + 1 != len {
            return None;
        }
        let w = match digits_to_u64(s, i, j) {
            Some(v) => v,
            None => {
                proof {
                    let wv = digits_val(s@.subrange(i as int, j as int));
                    assert(wv * 604800 >= wv) by (nonlinear_arith)
                        requires
                            wv >= 0,
                    ;
                }
                return None;
            },
        };
        match w.checked_mul(604800) {
            Some(v) => Some(v),
            None => None,
        }
    } else {
        None
    }
}

/// Decodes a whole `DURATION` text into signed seconds. Fails exactly when
/// the grammar does not match or the magnitude exceeds `i64::MAX`.
pub fn parse_duration(s: &str) -> (r: Option<i64>)
    ensures
        match r {
            Some(v) => dur_text_val(s@) == Some(v as int) && -i64::MAX <= v,
            None => match dur_text_val(s@) {
                Some(v) => v > i64::MAX || v < -i64::MAX,
                None => true,
            },
        },
{
    let len = s.unicode_len();
    if len == 0 {
        return None;
    }
    let c0 = s.get_char(0);
    let neg = c0 == '-';
    let i: usize = if c0 == '-' || c0 == '+' {
        1
    } else {
        0
    };
    if i >= len {
        return None;
    }
    if s.get_char(i) != 'P' {
        return None;
    }
    proof {
        lemma_dur_parts_nonneg(s@.subrange(i as int + 1, len as int));
    }
    let body = match parse_dur_body(s, i + 1, len) {
        Some(v) => v,
        None => {
            return None;
        },
    };
    if body > 0x7fff_ffff_ffff_ffff {
        return None;
    }
    if neg {
        Some(-(body as i64))
    } else {
        Some(body as i64)
    }
}

// --- canonical formatting and the round-trip law -----------------------------
/// The character for one decimal digit value.
pub open spec fn digit_char(d: int) -> char {
    ((48 + d) as u8) as char
}

/// Decimal numeral of a nonnegative number, most significant digit first.
pub open spec fn dec_digits(n: int) -> Seq<char>
    decreases n,
{
    if n < 10 {
        seq![digit_char(n)]
    } else {
        dec_digits(n / 10).push(digit_char(n % 10))
    }
}

/// The canonical text of a span of `v` signed seconds: sign, `P`, a day count
/// when nonzero, and a full `T..H..M..S` section unless the span is a whole
/// positive number of days.
pub open spec fn dur_canonical_text(v: int) -> Seq<char> {
    let sign: Seq<char> = if v < 0 {
        seq!['-']
    } else {
        Seq::empty()
    };
    let a = if v < 0 {
        -v
    } else {
        v
    };
    let d = a / 86400;
    let rem = a % 86400;
    let h = rem / 3600;
    let rem2 = rem % 3600;
    let m = rem2 / 60;
    let sec = rem2 % 60;
    sign + seq!['P'] + (if d > 0 {
        dec_digits(d).push('D')
    } else {
        Seq::<char>::empty()
    }) + (if rem > 0 || d == 0 {
        seq!['T'] + dec_digits(h).push('H') + dec_digits(m).push('M') + dec_digits(sec).push('S')
    } else {
        Seq::<char>::empty()
    })
}

pub proof fn lemma_dec_digits(n: int)
    requires
        n >= 0,
    ensures
        dec_digits(n).len() >= 1,
        all_digits(dec_digits(n)),
        digits_val(dec_digits(n)) == n,
    decreases n,
{
    if n < 10 {
        assert(digit_char(n) as int == 48 + n);
        assert(is_digit(digit_char(n)));
        let t = dec_digits(n);
        assert(t == seq![digit_char(n)]);
        assert(t.drop_last() =~= Seq::<char>::empty());
        assert(digits_val(t.drop_last()) == 0);
        assert(t.last() == digit_char(n));
        assert(digits_val(t) == digits_val(t.drop_last()) * 10 + digit_val(t.last()));
        assert(digit_val(digit_char(n)) == n);
    } else {
        lemma_dec_digits(n / 10);
        let t = dec_digits(n);
        assert(t == dec_digits(n / 10).push(digit_char(n % 10)));
        assert(t.drop_last() =~= dec_digits(n / 10));
        assert(t.last() == digit_char(n % 10));
        assert(digit_char(n % 10) as int == 48 + n % 10);
        assert(is_digit(digit_char(n % 10)));
        assert(digits_val(t) == (n / 10) * 10 + n % 10);
        assert(n == (n / 10) * 10 + n % 10);
        assert forall|i: int| 0 <= i < t.len() implies is_digit(#[trigger] t[i]) by {
            if i < t.len() - 1 {
                assert(t[i] == dec_digits(n / 10)[i]);
            }
        }
    }
}

/// A numeral followed by a non-digit marker is scanned exactly to its end.
proof fn lemma_run_of_numeral(n: int, rest: Seq<char>)
    requires
        n >= 0,
        rest.len() >= 1,
        !is_digit(rest[0]),
    ensures
        digit_run(dec_digits(n) + rest) == dec_digits(n).len(),
        (dec_digits(n) + rest).subrange(0, dec_digits(n).len() as int) =~= dec_digits(n),
        (dec_digits(n) + rest).subrange(
            dec_digits(n).len() as int,
            (dec_digits(n) + rest).len() as int,
        ) =~= rest,
{
    lemma_dec_digits(n);
    let t = dec_digits(n) + rest;
    let k = dec_digits(n).len() as int;
    assert forall|x: int| 0 <= x < k implies is_digit(#[trigger] t[x]) by {
        assert(t[x] == dec_digits(n)[x]);
    }
    assert(t[k] == rest[0]);
    lemma_digit_run_is(t, k);
}

proof fn lemma_sec_eval(sec: int)
    requires
        sec >= 0,
    ensures
        dur_sec_part(dec_digits(sec).push('S')) == Some(sec),
{
    lemma_dec_digits(sec);
    assert(dec_digits(sec).push('S') =~= dec_digits(sec) + seq!['S']);
    lemma_run_of_numeral(sec, seq!['S']);
    let t = dec_digits(sec) + seq!['S'];
    let k = dec_digits(sec).len() as int;
    assert(t[k] == 'S');
    assert(t.subrange(0, k) =~= dec_digits(sec));
}

proof fn lemma_min_eval(m: int, sec: int)
    requires
        m >= 0,
        sec >= 0,
    ensures
        dur_min_part(dec_digits(m).push('M') + dec_digits(sec).push('S')) == Some(m * 60 + sec),
{
    lemma_dec_digits(m);
    lemma_dec_digits(sec);
    let secpart = dec_digits(sec).push('S');
    let rest = seq!['M'] + secpart;
    assert(dec_digits(m).push('M') + secpart =~= dec_digits(m) + rest);
    lemma_run_of_numeral(m, rest);
    let t = dec_digits(m) + rest;
    let k = dec_digits(m).len() as int;
    assert(t[k] == 'M');
    assert(t.subrange(0, k) =~= dec_digits(m));
    assert(t.subrange(k + 1, t.len() as int) =~= secpart);
    assert(secpart =~= dec_digits(sec) + seq!['S']);
    lemma_sec_eval(sec);
}

proof fn lemma_hour_eval(h: int, m: int, sec: int)
    requires
        h >= 0,
        m >= 0,
        sec >= 0,
    ensures
        dur_hour_part(
            dec_digits(h).push('H') + dec_digits(m).push('M') + dec_digits(sec).push('S'),
        ) == Some(h * 3600 + m * 60 + sec),
{
    lemma_dec_digits(h);
    let minsec = dec_digits(m).push('M') + dec_digits(sec).push('S');
    let rest = seq!['H'] + minsec;
    assert(dec_digits(h).push('H') + dec_digits(m).push('M') + dec_digits(sec).push('S')
        =~= dec_digits(h) + rest);
    lemma_run_of_numeral(h, rest);
    let t = dec_digits(h) + rest;
    let k = dec_digits(h).len() as int;
    assert(t[k] == 'H');
    assert(t.subrange(0, k) =~= dec_digits(h));
    assert(t.subrange(k + 1, t.len() as int) =~= minsec);
    lemma_min_eval(m, sec);
}

proof fn lemma_time_eval(h: int, m: int, sec: int)
    requires
        h >= 0,
        m >= 0,
        sec >= 0,
    ensures
        dur_time_part(
            seq!['T'] + dec_digits(h).push('H') + dec_digits(m).push('M') + dec_digits(sec).push(
                'S',
            ),
        ) == Some(h * 3600 + m * 60 + sec),
{
    let hms = dec_digits(h).push('H') + dec_digits(m).push('M') + dec_digits(sec).push('S');
    let t = seq!['T'] + hms;
    assert(t =~= seq!['T'] + dec_digits(h).push('H') + dec_digits(m).push('M') + dec_digits(
        sec,
    ).push('S'));
    assert(t[0] == 'T');
    assert(t.subrange(1, t.len() as int) =~= hms);
    lemma_hour_eval(h, m, sec);
}

/// Formatting any representable span and re-parsing it yields the same span:
/// the canonical duration text is a faithful inverse of the duration grammar.
#[verifier::rlimit(100)]
pub proof fn lemma_duration_roundtrip(v: int)
    requires
        -0x7fff_ffff_ffff_ffff <= v <= 0x7fff_ffff_ffff_ffff,
    ensures
        dur_text_val(dur_canonical_text(v)) == Some(v),
{
    let sign: Seq<char> = if v < 0 {
        seq!['-']
    } else {
        Seq::empty()
    };
    let a = if v < 0 {
        -v
    } else {
        v
    };
    let d = a / 86400;
    let rem = a % 86400;
    let h = rem / 3600;
    let rem2 = rem % 3600;
    let m = rem2 / 60;
    let sec = rem2 % 60;
    assert(a == d * 86400 + rem);
    assert(rem == h * 3600 + rem2);
    assert(rem2 == m * 60 + sec);
    let dpart: Seq<char> = if d > 0 {
        dec_digits(d).push('D')
    } else {
        Seq::<char>::empty()
    };
    let tpart: Seq<char> = if rem > 0 || d == 0 {
        seq!['T'] + dec_digits(h).push('H') + dec_digits(m).push('M') + dec_digits(sec).push('S')
    } else {
        Seq::<char>::empty()
    };
    let s = dur_canonical_text(v);
    assert(s == sign + seq!['P'] + dpart + tpart);
    let body = dpart + tpart;
    // the sign and `P` prefix peel off
    if v < 0 {
        assert(s[0] == '-');
        assert(s[1] == 'P');
        assert(s.subrange(2, s.len() as int) =~= body);
    } else {
        assert(s[0] == 'P');
        assert(!(s[0] == '-' || s[0] == '+')) by {
            assert(s[0] == 'P');
        }
        assert(s.subrange(1, s.len() as int) =~= body);
    }
    // the body denotes `a`
    if d > 0 {
        lemma_dec_digits(d);
        let rest = seq!['D'] + tpart;
        assert(body =~= dec_digits(d) + rest);
        lemma_run_of_numeral(d, rest);
        let k = dec_digits(d).len() as int;
        assert(body[0] == dec_digits(d)[0]);
        assert(is_digit(body[0]));
        assert(body[0] != 'T');
        assert(body[k] == 'D');
        assert(body.subrange(0, k) =~= dec_digits(d));
        assert(body.subrange(k + 1, body.len() as int) =~= tpart);
        if rem > 0 {
            lemma_time_eval(h, m, sec);
            assert(dur_time_part(tpart) == Some(h * 3600 + m * 60 + sec));
            assert(dur_body(body) == Some(d * 86400 + (h * 3600 + m * 60 + sec)));
            assert(d * 86400 + (h * 3600 + m * 60 + sec) == a);
        } else {
            assert(tpart.len() == 0);
            assert(dur_body(body) == Some(d * 86400));
            assert(d * 86400 == a);
        }
    } else {
        assert(dpart.len() == 0);
        assert(body =~= tpart);
        lemma_time_eval(h, m, sec);
        assert(body[0] == 'T');
        assert(dur_body(body) == dur_time_part(body));
        assert(h * 3600 + m * 60 + sec == a);
    }
    assert(dur_body(body) == Some(a));
}

/// Appends one decimal digit character.
fn append_digit(out: &mut String, d: u64)
    requires
        d < 10,
    ensures
        final(out)@ == old(out)@ + seq![digit_char(d as int)],
{
    proof {
        reveal_strlit("0");
        reveal_strlit("1");
        reveal_strlit("2");
        reveal_strlit("3");
        reveal_strlit("4");
        reveal_strlit("5");
        reveal_strlit("6");
        reveal_strlit("7");
        reveal_strlit("8");
        reveal_strlit("9");
    }
    if d == 0 {
        out.append("0");
        proof {
            assert(out@ =~= old(out)@ + seq![digit_char(d as int)]);
        }
    } else if d == 1 {
        out.append("1");
        proof {
            assert(out@ =~= old(out)@ + seq![digit_char(d as int)]);
        }
    } else if d == 2 {
        out.append("2");
        proof {
            assert(out@ =~= old(out)@ + seq![digit_char(d as int)]);
        }
    } else if d == 3 {
        out.append("3");
        proof {
            assert(out@ =~= old(out)@ + seq![digit_char(d as int)]);
        }
    } else if d == 4 {
        out.append("4");
        proof {
            assert(out@ =~= old(out)@ + seq![digit_char(d as int)]);
        }
    } else if d == 5 {
        out.append("5");
        proof {
            assert(out@ =~= old(out)@ + seq![digit_char(d as int)]);
        }
    } else if d == 6 {
        out.append("6");
        proof {
            assert(out@ =~= old(out)@ + seq![digit_char(d as int)]);
        }
    } else if d == 7 {
        out.append("7");
        proof {
            assert(out@ =~= old(out)@ + seq![digit_char(d as int)]);
        }
    } else if d == 8 {
        out.append("8");
        proof {
            assert(out@ =~= old(out)@ + seq![digit_char(d as int)]);
        }
    } else {
        out.append("9");
        proof {
            assert(out@ =~= old(out)@ + seq![digit_char(d as int)]);
        }
    }
}

/// Appends the decimal numeral of `n`.
fn append_decimal(out: &mut String, n: u64)
    ensures
        final(out)@ == old(out)@ + dec_digits(n as int),
    decreases n,
{
    if n < 10 {
        append_digit(out, n);
    } else {
        append_decimal(out, n / 10);
        append_digit(out, n % 10);
        proof {
            assert(out@ =~= old(out)@ + dec_digits(n as int));
        }
    }
}

impl ICalDuration {
    /// Renders the span back to its canonical `DURATION` text.
    pub fn format(&self) -> (r: String)
        requires
            self.seconds > i64::MIN,
        ensures
            r@ == dur_canonical_text(self.seconds as int),
    {
        proof {
            reveal_strlit("-");
            reveal_strlit("P");
            reveal_strlit("D");
            reveal_strlit("T");
            reveal_strlit("H");
            reveal_strlit("M");
            reveal_strlit("S");
        }
        let neg = self.seconds < 0;
        let a: u64 = if neg {
            (-self.seconds) as u64
        } else {
            self.seconds as u64
        };
        let d = a / 86400;
        let rem = a % 86400;
        let h = rem / 3600;
        let rem2 = rem % 3600;
        let m = rem2 / 60;
        let sec = rem2 % 60;
        let mut out = String::new();
        if neg {
            out.append("-");
        }
        out.append("P");
        if d > 0 {
            append_decimal(&mut out, d);
            out.append("D");
        }
        if rem > 0 || d == 0 {
            out.append("T");
            append_decimal(&mut out, h);
            out.append("H");
            append_decimal(&mut out, m);
            out.append("M");
            append_decimal(&mut out, sec);
            out.append("S");
        }
        proof {
            assert(out@ =~= dur_canonical_text(self.seconds as int));
        }
        out
    }

    pub fn try_from(property: &Property) -> (r: Result<ICalDuration, Error>)
        ensures
            match r {
                Ok(d) => duration_decode_ok(*property) && (match property.value {
                    Some(s) => dur_text_val(s@) == Some(d.seconds as int),
                    None => false,
                }),
                Err(e) => !duration_decode_ok(*property) && e == Error::TypeDecode(
                    ICalTypes::Duration,
                ),
            },
    {
        match &property.value {
            Some(v) => match parse_duration(v.as_str()) {
                Some(seconds) => Ok(ICalDuration { seconds }),
                None => Err(Error::TypeDecode(ICalTypes::Duration)),
            },
            None => Err(Error::TypeDecode(ICalTypes::Duration)),
        }
    }
}

} // verus!
