//! The timezone model: a named, ordered collection of offset transitions,
//! each optionally recurring through an outside recurrence engine. Resolution
//! expands every transition's recurrence lazily, never past the query
//! instant, and picks the latest anchor at or before it.
use vstd::prelude::*;

use crate::property::Property;
use crate::temporal::dt_seconds;
use crate::types::{datetime_is_utc, datetime_of_text, datetime_text_valid, parse_datetime,
    parse_utc_offset, utcoffset_seconds, utcoffset_text_valid};
use crate::scan::{char_idx, find_char, lemma_char_idx_is, str_eq};
use crate::Error;

verus! {

#[verifier::external_type_specification]
#[verifier::external_body]
pub struct ExRRuleSet(rrule::RRuleSet);

#[verifier::external_type_specification]
#[verifier::external_body]
#[verifier::reject_recursive_types(Stage)]
pub struct ExRRule<Stage>(rrule::RRule<Stage>);

#[verifier::external_type_specification]
#[verifier::external_body]
pub struct ExUnvalidated(rrule::Unvalidated);

#[verifier::external_type_specification]
#[verifier::external_body]
pub struct ExValidated(rrule::Validated);

/// Whether rrule's grammar accepts one `RRULE` content line. Applied only to
/// texts `rrule_text_safe` admits, where acceptance is a pure function of the
/// text: on other texts the engine may read an `UNTIL` value in the machine's
/// timezone, and its outcome names no function of the text.
pub uninterp spec fn rrule_accepts(s: Seq<char>) -> bool;

/// Whether the engine validates the rule a text denotes against a start
/// instant. Applied only to texts `rrule_text_safe` admits, where it is a
/// pure function of the text and the instant.
pub uninterp spec fn rrule_validates(s: Seq<char>, dt_start: i64) -> bool;

/// The set carries no exclusion rules and no exclusion dates, so nothing
/// filters its occurrence stream. Every set this crate builds has it.
pub uninterp spec fn rrule_unfiltered(set: rrule::RRuleSet) -> bool;

/// The `n`-th instant (as naive seconds) that iterating a recurrence set
/// yields, if the stream is that long. Iteration of a given set is
/// deterministic, so this is a function of the set value.
pub uninterp spec fn rrule_occurrence(set: rrule::RRuleSet, n: usize) -> Option<i64>;

/// The set's occurrence stream yields `v` at some position.
pub open spec fn stream_contains(set: rrule::RRuleSet, v: i64) -> bool {
    exists|n: usize| rrule_occurrence(set, n) == Some(v)
}

// --- the timezone-independence guard on rule texts ---------------------------
/// ASCII lowercase letters mapped to uppercase; everything else unchanged.
pub open spec fn ascii_upper(c: char) -> char {
    if 'a' <= c && c <= 'z' {
        ((c as u8) - 32) as char
    } else {
        c
    }
}

pub open spec fn all_ascii(s: Seq<char>) -> bool {
    forall|i: int| 0 <= i < s.len() ==> ((#[trigger] s[i]) as int) < 128
}

/// No line break: the engine's date regex is line-anchored, so a value with a
/// break could be read from a line that lacks the UTC marker.
pub open spec fn no_newline(f: Seq<char>) -> bool {
    forall|i: int| 0 <= i < f.len() ==> (#[trigger] f[i]) != '\n'
}

/// One `;`-separated fragment cannot make the engine read a time in the
/// machine's timezone: either it ends with the UTC marker `Z` and holds no
/// line break, or its key (the text before the first `=`, which the engine
/// matches after case-insensitive uppercasing) is ASCII and is not `UNTIL`.
/// A fragment without `=` makes the whole line a parse error,
/// machine-independently.
pub open spec fn fragment_until_safe(f: Seq<char>) -> bool {
    let e = char_idx(f, '=');
    if !(0 <= e < f.len()) {
        true
    } else {
        let key = f.subrange(0, e);
        ||| (f.len() > 0 && f[f.len() - 1] == 'Z' && no_newline(f))
        ||| (all_ascii(key) && key.map_values(|c: char| ascii_upper(c)) != seq![
            'U',
            'N',
            'T',
            'I',
            'L',
        ])
    }
}

pub open spec fn until_fragments_safe(s: Seq<char>) -> bool
    decreases s.len(),
{
    let k = char_idx(s, ';');
    if !(0 <= k <= s.len()) {
        true
    } else if k == s.len() {
        fragment_until_safe(s)
    } else {
        fragment_until_safe(s.subrange(0, k)) && until_fragments_safe(
            s.subrange(k + 1, s.len() as int),
        )
    }
}

/// The part of a content line the engine splits into fragments: the text
/// after the first `:`, or the whole text when there is none.
pub open spec fn rrule_value_part(s: Seq<char>) -> Seq<char> {
    let k = char_idx(s, ':');
    if 0 <= k < s.len() {
        s.subrange(k + 1, s.len() as int)
    } else {
        s
    }
}

/// On these texts the engine never interprets a local time in the machine's
/// timezone, so acceptance and validation are functions of the text alone.
pub open spec fn rrule_text_safe(s: Seq<char>) -> bool {
    until_fragments_safe(rrule_value_part(s))
}

/// Decides whether the key `s[p..e]` is `UNTIL` up to ASCII case, failing on
/// any non-ASCII character.
fn check_key_until(s: &str, p: usize, e: usize) -> (r: Option<bool>)
    requires
        p <= e <= s@.len(),
    ensures
        ({
            let key = s@.subrange(p as int, e as int);
            match r {
                None => !all_ascii(key),
                Some(b) => all_ascii(key) && b == (key.map_values(|c: char| ascii_upper(c))
                    == seq!['U', 'N', 'T', 'I', 'L']),
            }
        }),
{
    let ghost key = s@.subrange(p as int, e as int);
    let mut q = p;
    while q < e
        invariant
            p <= q <= e <= s@.len(),
            key == s@.subrange(p as int, e as int),
            forall|x: int| p <= x < q ==> ((#[trigger] s@[x]) as int) < 128,
        decreases e - q,
    {
        let c = s.get_char(q);
        if !((c as u32) < 128) {
            proof {
                assert(key[q - p] == s@[q as int]);
            }
            return None;
        }
        q = q + 1;
    }
    proof {
        assert forall|x: int| 0 <= x < key.len() implies ((#[trigger] key[x]) as int) < 128 by {
            assert(key[x] == s@[p + x]);
        }
    }
    if e - p != 5 {
        proof {
            assert(key.map_values(|c: char| ascii_upper(c)).len() == key.len());
        }
        return Some(false);
    }
    let mut idx: usize = 0;
    let mut matches_until = true;
    while idx < 5
        invariant
            idx <= 5,
            p + 5 == e <= s@.len(),
            key == s@.subrange(p as int, e as int),
            matches_until == (forall|x: int|
                0 <= x < idx ==> ascii_upper(#[trigger] key[x]) == seq![
                    'U',
                    'N',
                    'T',
                    'I',
                    'L',
                ][x]),
        decreases 5 - idx,
    {
        let c = s.get_char(p + idx);
        proof {
            assert(key[idx as int] == s@[p + idx]);
        }
        let u = if 'a' <= c && c <= 'z' {
            (((c as u32) - 32) as u8) as char
        } else {
            c
        };
        proof {
            assert(u == ascii_upper(c));
        }
        let target = if idx == 0 {
            'U'
        } else if idx == 1 {
            'N'
        } else if idx == 2 {
            'T'
        } else if idx == 3 {
            'I'
        } else {
            'L'
        };
        if u != target {
            matches_until = false;
        }
        proof {
            if matches_until {
                assert forall|x: int|
                    0 <= x < idx + 1 implies ascii_upper(#[trigger] key[x]) == seq![
                    'U',
                    'N',
                    'T',
                    'I',
                    'L',
                ][x] by {}
            }
        }
        idx = idx + 1;
    }
    proof {
        let mapped = key.map_values(|c: char| ascii_upper(c));
        if matches_until {
            assert(mapped =~= seq!['U', 'N', 'T', 'I', 'L']);
        } else {
            let x = choose|x: int|
                0 <= x < 5 && ascii_upper(#[trigger] key[x]) != seq!['U', 'N', 'T', 'I', 'L'][x];
            assert(mapped[x] != seq!['U', 'N', 'T', 'I', 'L'][x]);
        }
    }
    Some(matches_until)
}

/// Decides `fragment_until_safe` for the fragment `s[p..k]`.
fn check_fragment_safe(s: &str, p: usize, k: usize) -> (r: bool)
    requires
        p <= k <= s@.len(),
    ensures
        r == fragment_until_safe(s@.subrange(p as int, k as int)),
{
    let ghost f = s@.subrange(p as int, k as int);
    let e = find_char(s, p, k, '=');
    proof {
        assert forall|x: int| 0 <= x < e - p implies (#[trigger] f[x]) != '=' by {
            assert(f[x] == s@[p + x]);
        }
        if e < k {
            assert(f[e - p] == s@[e as int]);
        }
        lemma_char_idx_is(f, '=', e as int - p);
    }
    if e >= k {
        return true;
    }
    if s.get_char(k - 1) == 'Z' {
        let nl = find_char(s, p, k, '\n');
        if nl == k {
            proof {
                assert(f[f.len() - 1] == s@[k - 1]);
                assert forall|x: int| 0 <= x < f.len() implies (#[trigger] f[x]) != '\n' by {
                    assert(f[x] == s@[p + x]);
                }
            }
            return true;
        }
        proof {
            assert(f[nl - p] == s@[nl as int]);
            assert(!no_newline(f));
        }
    }
    proof {
        assert(f[f.len() - 1] == s@[k - 1]);
        assert(f.subrange(0, e - p) =~= s@.subrange(p as int, e as int));
    }
    match check_key_until(s, p, e) {
        None => false,
        Some(is_until) => !is_until,
    }
}

/// Decides `until_fragments_safe` for `s[i..len]`.
fn check_fragments_safe(s: &str, i: usize, len: usize) -> (r: bool)
    requires
        i <= len,
        len == s@.len(),
    ensures
        r == until_fragments_safe(s@.subrange(i as int, len as int)),
{
    let ghost full = s@.subrange(i as int, len as int);
    let mut p = i;
    loop
        invariant
            i <= p <= len == s@.len(),
            full == s@.subrange(i as int, len as int),
            until_fragments_safe(full) == until_fragments_safe(
                s@.subrange(p as int, len as int),
            ),
        decreases len - p,
    {
        let ghost t = s@.subrange(p as int, len as int);
        let k = find_char(s, p, len, ';');
        proof {
            assert forall|x: int| 0 <= x < k - p implies (#[trigger] t[x]) != ';' by {
                assert(t[x] == s@[p + x]);
            }
            if k < len {
                assert(t[k - p] == s@[k as int]);
            }
            lemma_char_idx_is(t, ';', k as int - p);
            assert(t.subrange(0, k - p) =~= s@.subrange(p as int, k as int));
        }
        if !check_fragment_safe(s, p, k) {
            proof {
                if k == len {
                    assert(t =~= s@.subrange(p as int, k as int));
                }
            }
            return false;
        }
        if k == len {
            proof {
                assert(t =~= s@.subrange(p as int, k as int));
            }
            return true;
        }
        proof {
            assert(t.subrange(k - p + 1, t.len() as int) =~= s@.subrange(
                k as int + 1,
                len as int,
            ));
        }
        p = k + 1;
    }
}

/// Decides `rrule_text_safe` for a content-line text.
fn check_rrule_text_safe(s: &str) -> (r: bool)
    ensures
        r == rrule_text_safe(s@),
{
    let len = s.unicode_len();
    let c = find_char(s, 0, len, ':');
    proof {
        lemma_char_idx_is(s@, ':', c as int);
    }
    if c < len {
        check_fragments_safe(s, c + 1, len)
    } else {
        proof {
            assert(s@.subrange(0, len as int) =~= s@);
        }
        check_fragments_safe(s, 0, len)
    }
}

/// Relies on rrule's `RRule` `FromStr` followed by `RRule::validate`. On
/// texts the guard admits, the engine never consults the machine's timezone
/// (every `UNTIL` value is UTC-marked, so the local-time reading is
/// unreachable), making both outcomes functions of the text and the start
/// instant. One body makes both calls: the intermediate unvalidated rule is
/// an opaque value and cannot itself carry a text-indexed name.
#[verifier::external_body]
fn rrule_parse_validate(s: &str, dt_start: i64) -> (r: Option<rrule::RRule<rrule::Validated>>)
    requires
        rrule_text_safe(s@),
        -62167219200 <= dt_start < 253402300800,
    ensures
        r is Some <==> (rrule_accepts(s@) && rrule_validates(s@, dt_start)),
{
    match <rrule::RRule<rrule::Unvalidated> as core::str::FromStr>::from_str(s) {
        Ok(rule) => match chrono::DateTime::from_timestamp(dt_start, 0) {
            Some(dt) => rule.validate(dt.with_timezone(&rrule::Tz::UTC)).ok(),
            None => None,
        },
        Err(_) => None,
    }
}

/// Relies on `RRuleSet::new`: an empty recurrence set anchored at the given
/// start instant, with no exclusion rules or dates.
#[verifier::external_body]
fn rrule_set_new(dt_start: i64) -> (r: rrule::RRuleSet)
    requires
        -62167219200 <= dt_start < 253402300800,
    ensures
        rrule_unfiltered(r),
{
    rrule::RRuleSet::new(
        chrono::DateTime::from_timestamp(dt_start, 0).unwrap().with_timezone(&rrule::Tz::UTC),
    )
}

/// Relies on `RRuleSet::rrule`: adds one validated rule, touching no
/// exclusion list.
#[verifier::external_body]
fn rrule_set_add_rrule(
    set: rrule::RRuleSet,
    r: rrule::RRule<rrule::Validated>,
) -> (out: rrule::RRuleSet)
    ensures
        rrule_unfiltered(set) ==> rrule_unfiltered(out),
{
    set.rrule(r)
}

/// Relies on `RRuleSet::rdate`: adds one explicit recurrence instant,
/// touching no exclusion list. With nothing filtering the stream, the added
/// instant is yielded at some position, and every instant the old set
/// yielded is still yielded.
#[verifier::external_body]
fn rrule_set_add_rdate(set: rrule::RRuleSet, ts: i64) -> (out: rrule::RRuleSet)
    requires
        -62167219200 <= ts < 253402300800,
    ensures
        rrule_unfiltered(set) ==> rrule_unfiltered(out),
        rrule_unfiltered(set) ==> stream_contains(out, ts),
        rrule_unfiltered(set) ==> forall|n: usize|
            (#[trigger] rrule_occurrence(set, n)) matches Some(v) ==> stream_contains(out, v),
{
    set.rdate(chrono::DateTime::from_timestamp(ts, 0).unwrap().with_timezone(&rrule::Tz::UTC))
}

/// Relies on iterating an `RRuleSet` (`IntoIterator for &RRuleSet`): the same
/// set yields the same occurrence stream on every iteration; the merged
/// stream comes in nondecreasing order; and once it ends it stays ended.
/// Iteration is lazy: this advances at most `n + 1` steps.
#[verifier::external_body]
fn rrule_set_nth(set: &rrule::RRuleSet, n: usize) -> (r: Option<i64>)
    ensures
        r == rrule_occurrence(*set, n),
        r is None ==> forall|m: usize|
            m >= n ==> (#[trigger] rrule_occurrence(*set, m)) is None,
        r matches Some(v) ==> forall|m: usize|
            m < n ==> ((#[trigger] rrule_occurrence(*set, m)) is Some && rrule_occurrence(
                *set,
                m,
            )->0 <= v),
        r matches Some(v) ==> forall|m: usize|
            m >= n ==> ((#[trigger] rrule_occurrence(*set, m)) is None || rrule_occurrence(
                *set,
                m,
            )->0 >= v),
{
    (&*set).into_iter().nth(n).map(|d| d.timestamp())
}

/// One declared offset transition: an anchor instant (naive local seconds), a
/// UTC offset in seconds effective from that anchor, and an optional
/// recurrence expansion generating further anchors for the same offset.
pub struct TimezoneTransition {
    pub local_start_time: i64,
    pub offset: i32,
    pub r_rules: Option<rrule::RRuleSet>,
}

/// `a` is an anchor instant of the transition: its declared start, or an
/// instant its recurrence expansion generates.
pub open spec fn is_anchor(tr: TimezoneTransition, a: i64) -> bool {
    ||| a == tr.local_start_time
    ||| (tr.r_rules matches Some(set) && exists|n: usize| rrule_occurrence(set, n) == Some(a))
}

pub open spec fn has_anchor_at_or_before(tr: TimezoneTransition, t: i64) -> bool {
    exists|a: i64| is_anchor(tr, a) && a <= t
}

impl TimezoneTransition {
    /// The latest anchor instant of this transition at or before `t`. The
    /// recurrence stream is consumed lazily and never advanced past `t`.
    fn latest_anchor_at_or_before(&self, t: i64) -> (r: Option<i64>)
        ensures
            match r {
                Some(a) => is_anchor(*self, a) && a <= t && (forall|b: i64|
                    is_anchor(*self, b) && b <= t ==> b <= a),
                None => !has_anchor_at_or_before(*self, t),
            },
    {
        let mut best: Option<i64> = if self.local_start_time <= t {
            Some(self.local_start_time)
        } else {
            None
        };
        match &self.r_rules {
            None => best,
            Some(set) => {
                let mut n: usize = 0;
                loop
                    invariant
                        self.r_rules == Some(*set),
                        match best {
                            Some(a) => is_anchor(*self, a) && a <= t,
                            None => self.local_start_time > t,
                        },
                        self.local_start_time <= t ==> (best matches Some(a) && a
                            >= self.local_start_time),
                        forall|m: usize|
                            (m < n && (#[trigger] rrule_occurrence(*set, m)) is Some
                                && rrule_occurrence(*set, m)->0 <= t) ==> (best is Some
                                && rrule_occurrence(*set, m)->0 <= best->0),
                    decreases usize::MAX - n,
                {
                    match rrule_set_nth(set, n) {
                        None => {
                            proof {
                                lemma_scan_done(*self, *set, t, n, best, true, 0);
                            }
                            return best;
                        },
                        Some(v) => {
                            if v > t {
                                proof {
                                    lemma_scan_done(*self, *set, t, n, best, false, v);
                                }
                                return best;
                            }
                            let new_best = match best {
                                Some(a) => {
                                    if v >= a {
                                        v
                                    } else {
                                        a
                                    }
                                },
                                None => v,
                            };
                            proof {
                                assert(rrule_occurrence(*set, n) == Some(v));
                                assert(is_anchor(*self, v));
                            }
                            best = Some(new_best);
                            if n == usize::MAX {
                                // every stream position has been examined
                                proof {
                                    lemma_scan_all(*self, *set, t, best);
                                }
                                return best;
                            }
                            n = n + 1;
                        },
                    }
                }
            },
        }
    }
}

/// At a scan's stopping point (the stream ended, or the next occurrence lies
/// past `t`), the best anchor seen dominates every anchor at or before `t`.
proof fn lemma_scan_done(
    tr: TimezoneTransition,
    set: rrule::RRuleSet,
    t: i64,
    n: usize,
    best: Option<i64>,
    ended: bool,
    v: i64,
)
    requires
        tr.r_rules == Some(set),
        match best {
            Some(a) => is_anchor(tr, a) && a <= t,
            None => tr.local_start_time > t,
        },
        tr.local_start_time <= t ==> (best matches Some(a) && a >= tr.local_start_time),
        forall|m: usize|
            (m < n && (#[trigger] rrule_occurrence(set, m)) is Some && rrule_occurrence(
                set,
                m,
            )->0 <= t) ==> (best is Some && rrule_occurrence(set, m)->0 <= best->0),
        if ended {
            forall|m: usize| m >= n ==> (#[trigger] rrule_occurrence(set, m)) is None
        } else {
            v > t && forall|m: usize|
                m >= n ==> ((#[trigger] rrule_occurrence(set, m)) is None || rrule_occurrence(
                    set,
                    m,
                )->0 >= v)
        },
    ensures
        match best {
            Some(a) => forall|b: i64| is_anchor(tr, b) && b <= t ==> b <= a,
            None => !has_anchor_at_or_before(tr, t),
        },
{
    match best {
        Some(a) => {
            assert forall|b: i64| is_anchor(tr, b) && b <= t implies b <= a by {
                if b != tr.local_start_time {
                    let m = choose|m: usize| rrule_occurrence(set, m) == Some(b);
                    assert(rrule_occurrence(set, m) is Some);
                    if m >= n {
                        assert(!ended);
                        assert(rrule_occurrence(set, m)->0 >= v);
                    }
                }
            }
        },
        None => {
            if has_anchor_at_or_before(tr, t) {
                let b = choose|b: i64| is_anchor(tr, b) && b <= t;
                assert(is_anchor(tr, b));
                if b != tr.local_start_time {
                    let m = choose|m: usize| rrule_occurrence(set, m) == Some(b);
                    assert(rrule_occurrence(set, m) is Some);
                    if m >= n {
                        assert(!ended);
                        assert(rrule_occurrence(set, m)->0 >= v);
                    }
                }
            }
        },
    }
}

/// A named timezone: an ordered collection of offset transitions, built once
/// and immutable thereafter.
pub struct Timezone {
    pub tzid: String,
    pub transitions: Vec<TimezoneTransition>,
}

/// Transition `i` applies to local time `t` through its anchor `a`.
pub open spec fn applies(trs: Seq<TimezoneTransition>, i: int, a: i64, t: i64) -> bool {
    0 <= i < trs.len() && is_anchor(trs[i], a) && a <= t
}

/// `off` is the offset the timezone resolves at local time `t`: it belongs to
/// a transition whose anchor at or before `t` is latest, the transition
/// listed later winning an exact tie.
pub open spec fn offset_resolution_ok(tz: Timezone, t: i64, off: i32) -> bool {
    exists|i: int, a: i64|
        {
            &&& #[trigger] applies(tz.transitions@, i, a, t)
            &&& off == tz.transitions@[i].offset
            &&& forall|j: int, b: i64|
                #[trigger] applies(tz.transitions@, j, b, t) ==> b < a || (b == a && j <= i)
        }
}

/// No transition of the timezone applies at or before `t`.
pub open spec fn no_applicable(tz: Timezone, t: i64) -> bool {
    forall|j: int, b: i64| !(#[trigger] applies(tz.transitions@, j, b, t))
}

impl Timezone {
    /// The UTC offset in effect at local time `t`, expanding every
    /// transition's recurrence lazily; fails exactly when `t` precedes every
    /// transition's anchors.
    pub fn resolve_offset(&self, t: i64) -> (r: Result<i32, Error>)
        ensures
            match r {
                Ok(off) => offset_resolution_ok(*self, t, off),
                Err(e) => e == Error::InvalidTimezone && no_applicable(*self, t),
            },
    {
        let n = self.transitions.len();
        let mut i: usize = 0;
        let mut best: Option<(usize, i64)> = None;
        while i < n
            invariant
                n == self.transitions.len(),
                i <= n,
                match best {
                    Some((bi, ba)) => bi < i && applies(self.transitions@, bi as int, ba, t)
                        && (forall|j: int, b: i64|
                        #[trigger] applies(self.transitions@, j, b, t) && j < i ==> b < ba || (b
                            == ba && j <= bi)),
                    None => forall|j: int, b: i64|
                        j < i ==> !(#[trigger] applies(self.transitions@, j, b, t)),
                },
            decreases n - i,
        {
            match self.transitions[i].latest_anchor_at_or_before(t) {
                Some(a) => {
                    proof {
                        assert(applies(self.transitions@, i as int, a, t));
                    }
                    let take = match best {
                        Some((_, ba)) => a >= ba,
                        None => true,
                    };
                    if take {
                        best = Some((i, a));
                    }
                },
                None => {
                    proof {
                        assert forall|b: i64|
                            !applies(self.transitions@, i as int, b, t) by {
                            if is_anchor(self.transitions@[i as int], b) && b <= t {
                                assert(has_anchor_at_or_before(self.transitions@[i as int], t));
                            }
                        }
                    }
                },
            }
            i = i + 1;
        }
        match best {
            Some((bi, ba)) => Ok(self.transitions[bi].offset),
            None => Err(Error::InvalidTimezone),
        }
    }

    /// Shifts local time `t` onto the UTC scale: `UTC = local - offset`.
    /// Fails with the timezone error when no transition applies, and with the
    /// time-range error when the shifted instant does not fit the scale.
    pub fn offset_time(&self, time: i64) -> (r: Result<i64, Error>)
        ensures
            match r {
                Ok(v) => exists|off: i32|
                    #[trigger] offset_resolution_ok(*self, time, off) && v == time - off,
                Err(e) => (e == Error::InvalidTimezone && no_applicable(*self, time)) || (e
                    == Error::InvalidTimeRange && exists|off: i32|
                    #[trigger] offset_resolution_ok(*self, time, off) && !(i64::MIN <= time - off
                        <= i64::MAX)),
            },
    {
        let off = match self.resolve_offset(time) {
            Ok(off) => off,
            Err(e) => {
                return Err(e);
            },
        };
        match time.checked_sub(off as i64) {
            Some(v) => Ok(v),
            None => Err(Error::InvalidTimeRange),
        }
    }

    /// The absolute instant at which local wall-clock time `time` occurs in
    /// this timezone: `UTC = local - offset`.
    pub fn to_utc(&self, time: i64) -> (r: Result<i64, Error>)
        ensures
            match r {
                Ok(v) => exists|off: i32|
                    #[trigger] offset_resolution_ok(*self, time, off) && v == time - off,
                Err(e) => (e == Error::InvalidTimezone && no_applicable(*self, time)) || (e
                    == Error::InvalidTimeRange && exists|off: i32|
                    #[trigger] offset_resolution_ok(*self, time, off) && !(i64::MIN <= time - off
                        <= i64::MAX)),
            },
    {
        self.offset_time(time)
    }
}

/// The resolved offset is unique: any two offsets satisfying the resolution
/// contract at the same local time are equal, so repeated resolution of the
/// same inputs yields identical output.
pub proof fn lemma_offset_resolution_unique(tz: Timezone, t: i64, o1: i32, o2: i32)
    requires
        offset_resolution_ok(tz, t, o1),
        offset_resolution_ok(tz, t, o2),
    ensures
        o1 == o2,
{
    let (i1, a1) = choose|i: int, a: i64|
        {
            &&& #[trigger] applies(tz.transitions@, i, a, t)
            &&& o1 == tz.transitions@[i].offset
            &&& forall|j: int, b: i64|
                #[trigger] applies(tz.transitions@, j, b, t) ==> b < a || (b == a && j <= i)
        };
    let (i2, a2) = choose|i: int, a: i64|
        {
            &&& #[trigger] applies(tz.transitions@, i, a, t)
            &&& o2 == tz.transitions@[i].offset
            &&& forall|j: int, b: i64|
                #[trigger] applies(tz.transitions@, j, b, t) ==> b < a || (b == a && j <= i)
        };
    assert(applies(tz.transitions@, i1, a1, t));
    assert(applies(tz.transitions@, i2, a2, t));
    assert(a1 == a2 && i1 == i2);
}

/// When every stream position has been examined, the best anchor seen
/// dominates every anchor at or before `t`.
proof fn lemma_scan_all(tr: TimezoneTransition, set: rrule::RRuleSet, t: i64, best: Option<i64>)
    requires
        tr.r_rules == Some(set),
        best matches Some(a) && is_anchor(tr, a) && a <= t,
        tr.local_start_time <= t ==> best->0 >= tr.local_start_time,
        forall|m: usize|
            ((#[trigger] rrule_occurrence(set, m)) is Some && rrule_occurrence(set, m)->0 <= t)
                ==> rrule_occurrence(set, m)->0 <= best->0,
        tr.local_start_time > t ==> is_anchor(tr, best->0),
    ensures
        forall|b: i64| is_anchor(tr, b) && b <= t ==> b <= best->0,
{
    assert forall|b: i64| is_anchor(tr, b) && b <= t implies b <= best->0 by {
        if b != tr.local_start_time {
            let m = choose|m: usize| rrule_occurrence(set, m) == Some(b);
            assert(rrule_occurrence(set, m) matches Some(w) && w <= t);
        }
    }
}

// --- construction from declared transition blocks ----------------------------
/// One declared transition block of a timezone definition, as handed in by
/// the surrounding calendar layer.
pub struct TransitionBlock {
    pub properties: Vec<Property>,
}

/// A declared timezone definition: its own properties and its transition
/// blocks, in declaration order.
pub struct TimezoneBlock {
    pub properties: Vec<Property>,
    pub transitions: Vec<TransitionBlock>,
}

/// The last property of `ps` bearing the given name, if any.
pub open spec fn last_named(ps: Seq<Property>, name: Seq<char>) -> Option<Property>
    decreases ps.len(),
{
    if ps.len() == 0 {
        None
    } else if ps.last().name@ == name {
        Some(ps.last())
    } else {
        last_named(ps.drop_last(), name)
    }
}

pub open spec fn has_named(ps: Seq<Property>, name: Seq<char>) -> bool {
    exists|i: int| 0 <= i < ps.len() && (#[trigger] ps[i]).name@ == name
}

/// The anchor of a block: its last `DTSTART` must hold a valid floating
/// date-time.
pub open spec fn dtstart_ok(ps: Seq<Property>) -> bool {
    last_named(ps, "DTSTART"@) matches Some(p) && p.value matches Some(s) && datetime_text_valid(
        s@,
    ) && !datetime_is_utc(s@)
}

pub open spec fn dtstart_seconds(ps: Seq<Property>) -> int {
    dt_seconds(datetime_of_text(last_named(ps, "DTSTART"@)->0.value->0@))
}

/// The offset of a block: its last `TZOFFSETTO` must hold a valid UTC offset.
pub open spec fn offsetto_ok(ps: Seq<Property>) -> bool {
    last_named(ps, "TZOFFSETTO"@) matches Some(p) && p.value matches Some(s)
        && utcoffset_text_valid(s@)
}

pub open spec fn offsetto_seconds(ps: Seq<Property>) -> int {
    utcoffset_seconds(last_named(ps, "TZOFFSETTO"@)->0.value->0@)
}

/// Every `DTSTART` that carries a value carries a parseable date-time (the
/// last one additionally decides the anchor and must be floating).
pub open spec fn dtstarts_wf(ps: Seq<Property>) -> bool {
    forall|i: int|
        0 <= i < ps.len() && (#[trigger] ps[i]).name@ == "DTSTART"@ ==> (
        ps[i].value matches Some(s) ==> datetime_text_valid(s@))
}

/// Every `TZOFFSETTO` that carries a value carries a valid UTC offset.
pub open spec fn offsets_wf(ps: Seq<Property>) -> bool {
    forall|i: int|
        0 <= i < ps.len() && (#[trigger] ps[i]).name@ == "TZOFFSETTO"@ ==> (
        ps[i].value matches Some(s) ==> utcoffset_text_valid(s@))
}

/// Every `RRULE` property holds a value, and one the timezone-independence
/// guard admits: any `UNTIL` inside it must carry the UTC marker.
pub open spec fn rrules_wf(ps: Seq<Property>) -> bool {
    forall|i: int|
        0 <= i < ps.len() && (#[trigger] ps[i]).name@ == "RRULE"@ ==> (ps[i].value matches Some(s)
            && rrule_text_safe(s@))
}

/// Every `RDATE` property holds a valid floating date-time.
pub open spec fn rdates_ok(ps: Seq<Property>) -> bool {
    forall|i: int|
        0 <= i < ps.len() && (#[trigger] ps[i]).name@ == "RDATE"@ ==> (ps[i].value matches Some(s)
            && datetime_text_valid(s@) && !datetime_is_utc(s@))
}

/// The parts of a transition block that this crate's own grammars decide.
pub open spec fn transition_block_ok(ps: Seq<Property>) -> bool {
    dtstarts_wf(ps) && dtstart_ok(ps) && offsets_wf(ps) && offsetto_ok(ps) && rrules_wf(ps)
        && rdates_ok(ps)
}

/// The values of the block's `RRULE` properties, in declaration order.
pub open spec fn rrule_texts(ps: Seq<Property>) -> Seq<Seq<char>>
    decreases ps.len(),
{
    if ps.len() == 0 {
        Seq::empty()
    } else if ps.last().name@ == "RRULE"@ {
        rrule_texts(ps.drop_last()).push(ps.last().value->0@)
    } else {
        rrule_texts(ps.drop_last())
    }
}

/// The instants of the block's `RDATE` properties, in declaration order.
pub open spec fn rdate_secs(ps: Seq<Property>) -> Seq<int>
    decreases ps.len(),
{
    if ps.len() == 0 {
        Seq::empty()
    } else if ps.last().name@ == "RDATE"@ {
        rdate_secs(ps.drop_last()).push(dt_seconds(datetime_of_text(ps.last().value->0@)))
    } else {
        rdate_secs(ps.drop_last())
    }
}

/// The recurrence engine accepts every declared rule text and validates it
/// against the block's anchor.
pub open spec fn rrules_engine_ok(ps: Seq<Property>) -> bool {
    forall|k: int|
        0 <= k < rrule_texts(ps).len() ==> (rrule_accepts(#[trigger] rrule_texts(ps)[k])
            && rrule_validates(rrule_texts(ps)[k], dtstart_seconds(ps) as i64))
}

/// A block constructs exactly when its own grammar checks pass and the engine
/// accepts and validates every declared rule.
pub open spec fn transition_constructs(ps: Seq<Property>) -> bool {
    transition_block_ok(ps) && rrules_engine_ok(ps)
}

/// A constructed transition matches its block: the anchor and offset come
/// from the last `DTSTART` and `TZOFFSETTO`; the recurrence set is present
/// exactly when the block declares recurrence fragments; and every declared
/// `RDATE` instant appears in the set's occurrence stream.
pub open spec fn transition_matches(ps: Seq<Property>, tr: TimezoneTransition) -> bool {
    &&& transition_block_ok(ps)
    &&& tr.local_start_time == dtstart_seconds(ps)
    &&& tr.offset == offsetto_seconds(ps)
    &&& (tr.r_rules is Some <==> (has_named(ps, "RRULE"@) || has_named(ps, "RDATE"@)))
    &&& (tr.r_rules matches Some(set) ==> forall|k: int|
        0 <= k < rdate_secs(ps).len() ==> stream_contains(
            set,
            (#[trigger] rdate_secs(ps)[k]) as i64,
        ))
}

/// How one more property extends the collected rule texts and instants.
proof fn lemma_collectors_push(ps: Seq<Property>, p: Property)
    ensures
        rrule_texts(ps.push(p)) == (if p.name@ == "RRULE"@ {
            rrule_texts(ps).push(p.value->0@)
        } else {
            rrule_texts(ps)
        }),
        rdate_secs(ps.push(p)) == (if p.name@ == "RDATE"@ {
            rdate_secs(ps).push(dt_seconds(datetime_of_text(p.value->0@)))
        } else {
            rdate_secs(ps)
        }),
{
    assert(ps.push(p).drop_last() =~= ps);
    assert(ps.push(p).last() == p);
}

/// How one more property changes the last-named and has-named folds.
proof fn lemma_named_push(ps: Seq<Property>, p: Property, name: Seq<char>)
    ensures
        last_named(ps.push(p), name) == (if p.name@ == name {
            Some(p)
        } else {
            last_named(ps, name)
        }),
        has_named(ps.push(p), name) == (has_named(ps, name) || p.name@ == name),
{
    let t = ps.push(p);
    assert(t.last() == p);
    assert(t.drop_last() =~= ps);
    if has_named(ps, name) {
        let i = choose|i: int| 0 <= i < ps.len() && (#[trigger] ps[i]).name@ == name;
        assert(t[i].name@ == name);
    }
    if p.name@ == name {
        assert(t[ps.len() as int].name@ == name);
    }
    if has_named(t, name) && !(p.name@ == name) {
        let i = choose|i: int| 0 <= i < t.len() && (#[trigger] t[i]).name@ == name;
        assert(i < ps.len() && ps[i].name@ == name);
    }
}

/// One more property preserves the per-name well-formedness folds.
proof fn lemma_wf_push(pre: Seq<Property>, p: Property)
    requires
        dtstarts_wf(pre),
        offsets_wf(pre),
        rrules_wf(pre),
        rdates_ok(pre),
        p.name@ == "DTSTART"@ ==> (p.value matches Some(s) ==> datetime_text_valid(s@)),
        p.name@ == "TZOFFSETTO"@ ==> (p.value matches Some(s) ==> utcoffset_text_valid(s@)),
        p.name@ == "RRULE"@ ==> (p.value matches Some(s) && rrule_text_safe(s@)),
        p.name@ == "RDATE"@ ==> (p.value matches Some(s) && datetime_text_valid(s@)
            && !datetime_is_utc(s@)),
    ensures
        dtstarts_wf(pre.push(p)),
        offsets_wf(pre.push(p)),
        rrules_wf(pre.push(p)),
        rdates_ok(pre.push(p)),
{
    let post = pre.push(p);
    assert forall|k: int|
        0 <= k < post.len() && (#[trigger] post[k]).name@ == "DTSTART"@ implies (
    post[k].value matches Some(s) ==> datetime_text_valid(s@)) by {
        if k < pre.len() {
            assert(post[k] == pre[k]);
        } else {
            assert(post[k] == p);
        }
    }
    assert forall|k: int|
        0 <= k < post.len() && (#[trigger] post[k]).name@ == "TZOFFSETTO"@ implies (
    post[k].value matches Some(s) ==> utcoffset_text_valid(s@)) by {
        if k < pre.len() {
            assert(post[k] == pre[k]);
        } else {
            assert(post[k] == p);
        }
    }
    assert forall|k: int|
        0 <= k < post.len() && (#[trigger] post[k]).name@ == "RRULE"@ implies (
    post[k].value matches Some(s) && rrule_text_safe(s@)) by {
        if k < pre.len() {
            assert(post[k] == pre[k]);
        } else {
            assert(post[k] == p);
        }
    }
    assert forall|k: int|
        0 <= k < post.len() && (#[trigger] post[k]).name@ == "RDATE"@ implies (
    post[k].value matches Some(s) && datetime_text_valid(s@) && !datetime_is_utc(s@)) by {
        if k < pre.len() {
            assert(post[k] == pre[k]);
        } else {
            assert(post[k] == p);
        }
    }
}

impl TimezoneTransition {
    /// Builds one transition from a declared block: the anchor from its last
    /// `DTSTART` (which must be floating), the offset from its last
    /// `TZOFFSETTO`, and a recurrence set from its `RRULE` and `RDATE`
    /// properties. Succeeds exactly when the block's own grammar checks pass
    /// and the engine accepts and validates every declared rule; every
    /// failure reports the timezone error.
    #[verifier::rlimit(100)]
    pub fn try_from(block: &TransitionBlock) -> (r: Result<TimezoneTransition, Error>)
        ensures
            match r {
                Ok(tr) => transition_matches(block.properties@, tr),
                Err(e) => e == Error::InvalidTimezone,
            },
            r is Ok <==> transition_constructs(block.properties@),
    {
        let ps = &block.properties;
        let n = ps.len();
        let mut i: usize = 0;
        let mut cur_start: Option<(i64, bool)> = None;
        let mut cur_off: Option<i32> = None;
        let mut rules: Vec<String> = Vec::new();
        let mut rdates: Vec<i64> = Vec::new();
        proof {
            assert(ps@.subrange(0, 0) =~= Seq::<Property>::empty());
        }
        while i < n
            invariant
                block.properties == *ps,
                n == ps.len(),
                i <= n,
                ({
                    let pre = ps@.subrange(0, i as int);
                    &&& (match last_named(pre, "DTSTART"@) {
                        None => cur_start is None,
                        Some(p) => match p.value {
                            None => cur_start is None,
                            Some(s) => datetime_text_valid(s@) && (cur_start matches Some(c)
                                && c.0 == dt_seconds(datetime_of_text(s@)) && c.1
                                == crate::types::datetime_is_utc(s@) && -62167219200 <= c.0
                                < 253402300800),
                        },
                    })
                    &&& (match last_named(pre, "TZOFFSETTO"@) {
                        None => cur_off is None,
                        Some(p) => match p.value {
                            None => cur_off is None,
                            Some(s) => utcoffset_text_valid(s@) && (cur_off matches Some(o) && o
                                == utcoffset_seconds(s@)),
                        },
                    })
                    &&& dtstarts_wf(pre)
                    &&& offsets_wf(pre)
                    &&& rrules_wf(pre)
                    &&& rdates_ok(pre)
                    &&& ((rules@.len() > 0) <==> has_named(pre, "RRULE"@))
                    &&& ((rdates@.len() > 0) <==> has_named(pre, "RDATE"@))
                    &&& rules@.len() == rrule_texts(pre).len()
                    &&& (forall|k: int|
                        0 <= k < rules@.len() ==> (#[trigger] rules@[k])@ == rrule_texts(pre)[k])
                    &&& (forall|k: int|
                        0 <= k < rules@.len() ==> rrule_text_safe((#[trigger] rules@[k])@))
                    &&& rdates@.len() == rdate_secs(pre).len()
                    &&& (forall|k: int|
                        0 <= k < rdates@.len() ==> (#[trigger] rdates@[k]) == rdate_secs(pre)[k])
                    &&& (forall|k: int|
                        0 <= k < rdates@.len() ==> -62167219200 <= #[trigger] rdates@[k]
                            < 253402300800)
                }),
            decreases n - i,
        {
            let ghost pre = ps@.subrange(0, i as int);
            let ghost rules0 = rules@;
            let ghost rdates0 = rdates@;
            let p = &ps[i];
            proof {
                reveal_strlit("DTSTART");
                reveal_strlit("TZOFFSETTO");
                reveal_strlit("RRULE");
                reveal_strlit("RDATE");
                assert("DTSTART"@.len() == 7 && "TZOFFSETTO"@.len() == 10 && "RRULE"@.len() == 5
                    && "RDATE"@.len() == 5);
                assert("RRULE"@[1] == 'R' && "RDATE"@[1] == 'D');
                assert("DTSTART"@ != "TZOFFSETTO"@ && "DTSTART"@ != "RRULE"@ && "DTSTART"@
                    != "RDATE"@ && "TZOFFSETTO"@ != "RRULE"@ && "TZOFFSETTO"@ != "RDATE"@
                    && "RRULE"@ != "RDATE"@);
                assert(ps@.subrange(0, i as int + 1) =~= pre.push(*p));
                lemma_named_push(pre, *p, "DTSTART"@);
                lemma_named_push(pre, *p, "TZOFFSETTO"@);
                lemma_named_push(pre, *p, "RRULE"@);
                lemma_named_push(pre, *p, "RDATE"@);
                lemma_collectors_push(pre, *p);
            }
            if str_eq(p.name.as_str(), "DTSTART") {
                match &p.value {
                    None => {
                        cur_start = None;
                    },
                    Some(v) => match parse_datetime(v.as_str()) {
                        Some((dt, utc)) => {
                            proof {
                                crate::types::lemma_datetime_of_text_year(v@);
                                crate::temporal::lemma_dt_seconds_range(dt);
                            }
                            cur_start = Some((dt.to_seconds(), utc));
                        },
                        None => {
                            proof {
                                assert(!dtstarts_wf(ps@)) by {
                                    assert((ps@[i as int]).name@ == "DTSTART"@);
                                }
                            }
                            return Err(Error::InvalidTimezone);
                        },
                    },
                }
            } else if str_eq(p.name.as_str(), "TZOFFSETTO") {
                match &p.value {
                    None => {
                        cur_off = None;
                    },
                    Some(v) => match parse_utc_offset(v.as_str()) {
                        Some(off) => {
                            cur_off = Some(off);
                        },
                        None => {
                            proof {
                                assert(!offsets_wf(ps@)) by {
                                    assert((ps@[i as int]).name@ == "TZOFFSETTO"@);
                                }
                            }
                            return Err(Error::InvalidTimezone);
                        },
                    },
                }
            } else if str_eq(p.name.as_str(), "RRULE") {
                match &p.value {
                    None => {
                        proof {
                            assert(!rrules_wf(ps@)) by {
                                assert((ps@[i as int]).name@ == "RRULE"@);
                            }
                        }
                        return Err(Error::InvalidTimezone);
                    },
                    Some(v) => {
                        if !check_rrule_text_safe(v.as_str()) {
                            proof {
                                assert(!rrules_wf(ps@)) by {
                                    assert((ps@[i as int]).name@ == "RRULE"@);
                                }
                            }
                            return Err(Error::InvalidTimezone);
                        }
                        rules.push(v.clone());
                    },
                }
            } else if str_eq(p.name.as_str(), "RDATE") {
                match &p.value {
                    None => {
                        proof {
                            assert(!rdates_ok(ps@)) by {
                                assert((ps@[i as int]).name@ == "RDATE"@);
                            }
                        }
                        return Err(Error::InvalidTimezone);
                    },
                    Some(v) => match parse_datetime(v.as_str()) {
                        Some((dt, false)) => {
                            proof {
                                crate::types::lemma_datetime_of_text_year(v@);
                                crate::temporal::lemma_dt_seconds_range(dt);
                            }
                            rdates.push(dt.to_seconds());
                        },
                        _ => {
                            proof {
                                assert(!rdates_ok(ps@)) by {
                                    assert((ps@[i as int]).name@ == "RDATE"@);
                                }
                            }
                            return Err(Error::InvalidTimezone);
                        },
                    },
                }
            }
            proof {
                let post = ps@.subrange(0, i as int + 1);
                lemma_wf_push(pre, *p);
                assert forall|k: int| 0 <= k < rules@.len() implies (#[trigger] rules@[k])@
                    == rrule_texts(post)[k] by {
                    if k < rules0.len() {
                        assert(rules@[k] == rules0[k]);
                        assert(rrule_texts(post)[k] == rrule_texts(pre)[k]);
                    }
                }
                assert forall|k: int| 0 <= k < rdates@.len() implies (#[trigger] rdates@[k])
                    == rdate_secs(post)[k] by {
                    if k < rdates0.len() {
                        assert(rdates@[k] == rdates0[k]);
                        assert(rdate_secs(post)[k] == rdate_secs(pre)[k]);
                    }
                }
            }
            i = i + 1;
        }
        proof {
            assert(ps@.subrange(0, n as int) =~= ps@);
        }
        let local_start_time = match cur_start {
            Some((v, false)) => v,
            _ => {
                return Err(Error::InvalidTimezone);
            },
        };
        let offset = match cur_off {
            Some(o) => o,
            None => {
                return Err(Error::InvalidTimezone);
            },
        };
        let has_fragments = rules.len() > 0 || rdates.len() > 0;
        let ghost full_texts = rrule_texts(ps@);
        let r_rules = if has_fragments {
            let mut set = rrule_set_new(local_start_time);
            let rn = rules.len();
            let mut ri: usize = 0;
            while ri < rn
                invariant
                    block.properties == *ps,
                    ri <= rn,
                    rn == rules@.len(),
                    rrule_unfiltered(set),
                    -62167219200 <= local_start_time < 253402300800,
                    local_start_time == dtstart_seconds(ps@),
                    full_texts == rrule_texts(ps@),
                    rules@.len() == full_texts.len(),
                    forall|k: int|
                        0 <= k < rules@.len() ==> (#[trigger] rules@[k])@ == full_texts[k],
                    forall|k: int|
                        0 <= k < rules@.len() ==> rrule_text_safe((#[trigger] rules@[k])@),
                    forall|k: int|
                        0 <= k < ri ==> (rrule_accepts(#[trigger] full_texts[k])
                            && rrule_validates(full_texts[k], local_start_time)),
                decreases rn - ri,
            {
                match rrule_parse_validate(rules[ri].as_str(), local_start_time) {
                    Some(vr) => {
                        set = rrule_set_add_rrule(set, vr);
                    },
                    None => {
                        proof {
                            assert(!(rrule_accepts(rrule_texts(ps@)[ri as int])
                                && rrule_validates(
                                rrule_texts(ps@)[ri as int],
                                dtstart_seconds(ps@) as i64,
                            )));
                            assert(!rrules_engine_ok(ps@));
                        }
                        return Err(Error::InvalidTimezone);
                    },
                }
                ri = ri + 1;
            }
            let dn = rdates.len();
            let mut di: usize = 0;
            while di < dn
                invariant
                    di <= dn,
                    dn == rdates@.len(),
                    rrule_unfiltered(set),
                    forall|k: int|
                        0 <= k < rdates@.len() ==> -62167219200 <= #[trigger] rdates@[k]
                            < 253402300800,
                    forall|k: int| 0 <= k < di ==> stream_contains(set, #[trigger] rdates@[k]),
                decreases dn - di,
            {
                let ghost prev = set;
                set = rrule_set_add_rdate(set, rdates[di]);
                proof {
                    assert forall|k: int|
                        0 <= k < di + 1 implies stream_contains(set, #[trigger] rdates@[k]) by {
                        if k < di {
                            let m = choose|m: usize|
                                rrule_occurrence(prev, m) == Some(rdates@[k]);
                            assert(rrule_occurrence(prev, m) matches Some(v) && v == rdates@[k]);
                        }
                    }
                }
                di = di + 1;
            }
            Some(set)
        } else {
            None
        };
        proof {
            if !has_fragments {
                assert(rrule_texts(ps@).len() == 0);
            }
            assert(rrules_engine_ok(ps@));
            match &r_rules {
                None => {},
                Some(rset) => {
                    assert forall|k: int|
                        0 <= k < rdate_secs(ps@).len() implies stream_contains(
                        *rset,
                        (#[trigger] rdate_secs(ps@)[k]) as i64,
                    ) by {
                        assert(stream_contains(*rset, rdates@[k]));
                    }
                },
            }
        }
        Ok(TimezoneTransition { local_start_time, offset, r_rules })
    }
}

/// The timezone name of a definition: its last `TZID` must hold a value.
pub open spec fn tzid_ok(ps: Seq<Property>) -> bool {
    last_named(ps, "TZID"@) matches Some(p) && p.value is Some
}

impl Timezone {
    /// Builds a timezone from its declared definition: the name from its last
    /// `TZID`, and one transition per declared block, in declaration order
    /// (order is load-bearing for the resolution tie-break). Succeeds exactly
    /// when the name is declared with a value and every block constructs.
    pub fn try_from(block: &TimezoneBlock) -> (r: Result<Timezone, Error>)
        ensures
            match r {
                Ok(tz) => {
                    &&& tzid_ok(block.properties@)
                    &&& tz.tzid@ == last_named(block.properties@, "TZID"@)->0.value->0@
                    &&& tz.transitions@.len() == block.transitions@.len()
                    &&& forall|i: int|
                        0 <= i < block.transitions@.len() ==> transition_matches(
                            (#[trigger] block.transitions@[i]).properties@,
                            tz.transitions@[i],
                        )
                },
                Err(e) => e == Error::InvalidTimezone,
            },
            r is Ok <==> (tzid_ok(block.properties@) && forall|i: int|
                0 <= i < block.transitions@.len() ==> transition_constructs(
                    (#[trigger] block.transitions@[i]).properties@,
                )),
    {
        let ps = &block.properties;
        let n = ps.len();
        let mut i: usize = 0;
        let mut cur_tzid: Option<String> = None;
        proof {
            assert(ps@.subrange(0, 0) =~= Seq::<Property>::empty());
        }
        while i < n
            invariant
                block.properties == *ps,
                n == ps.len(),
                i <= n,
                match last_named(ps@.subrange(0, i as int), "TZID"@) {
                    None => cur_tzid is None,
                    Some(p) => match p.value {
                        None => cur_tzid is None,
                        Some(s) => cur_tzid matches Some(v) && v@ == s@,
                    },
                },
            decreases n - i,
        {
            let ghost pre = ps@.subrange(0, i as int);
            let p = &ps[i];
            proof {
                assert(ps@.subrange(0, i as int + 1) =~= pre.push(*p));
                lemma_named_push(pre, *p, "TZID"@);
            }
            if str_eq(p.name.as_str(), "TZID") {
                cur_tzid = match &p.value {
                    Some(v) => Some(v.clone()),
                    None => None,
                };
            }
            i = i + 1;
        }
        proof {
            assert(ps@.subrange(0, n as int) =~= ps@);
        }
        let tzid = match cur_tzid {
            Some(v) => v,
            None => {
                return Err(Error::InvalidTimezone);
            },
        };
        let mut transitions: Vec<TimezoneTransition> = Vec::new();
        let bn = block.transitions.len();
        let mut bi: usize = 0;
        while bi < bn
            invariant
                bn == block.transitions.len(),
                bi <= bn,
                transitions@.len() == bi,
                forall|k: int|
                    0 <= k < bi ==> transition_matches(
                        (#[trigger] block.transitions@[k]).properties@,
                        transitions@[k],
                    ),
                forall|k: int|
                    0 <= k < bi ==> transition_constructs(
                        (#[trigger] block.transitions@[k]).properties@,
                    ),
            decreases bn - bi,
        {
            match TimezoneTransition::try_from(&block.transitions[bi]) {
                Ok(tr) => {
                    transitions.push(tr);
                },
                Err(e) => {
                    return Err(e);
                },
            }
            bi = bi + 1;
        }
        Ok(Timezone { tzid, transitions })
    }
}

/// The timezone a name denotes in a list of definitions: the last definition
/// bearing that name wins, as a keyed map overwritten in insertion order.
pub open spec fn map_lookup(entries: Seq<Timezone>, id: Seq<char>) -> Option<Timezone>
    decreases entries.len(),
{
    if entries.len() == 0 {
        None
    } else if entries.last().tzid@ == id {
        Some(entries.last())
    } else {
        map_lookup(entries.drop_last(), id)
    }
}

/// A name-keyed collection of timezones, assembled once from a calendar
/// document and then only read.
pub struct TimezoneMap {
    pub entries: Vec<Timezone>,
}

impl TimezoneMap {
    pub fn new() -> (r: TimezoneMap)
        ensures
            r.entries@.len() == 0,
    {
        TimezoneMap { entries: Vec::new() }
    }

    pub fn insert(&mut self, tz: Timezone)
        ensures
            final(self).entries@ == old(self).entries@.push(tz),
    {
        self.entries.push(tz);
    }

    pub fn get(&self, tzid: &String) -> (r: Option<&Timezone>)
        ensures
            match r {
                Some(tz) => map_lookup(self.entries@, tzid@) == Some(*tz),
                None => map_lookup(self.entries@, tzid@) is None,
            },
    {
        let n = self.entries.len();
        proof {
            assert(self.entries@.subrange(0, n as int) =~= self.entries@);
        }
        let mut i = n;
        while i > 0
            invariant
                i <= n,
                n == self.entries.len(),
                map_lookup(self.entries@, tzid@) == map_lookup(
                    self.entries@.subrange(0, i as int),
                    tzid@,
                ),
            decreases i,
        {
            i = i - 1;
            proof {
                let pre = self.entries@.subrange(0, i as int + 1);
                assert(pre.last() == self.entries@[i as int]);
                assert(pre.drop_last() =~= self.entries@.subrange(0, i as int));
            }
            if str_eq(self.entries[i].tzid.as_str(), tzid.as_str()) {
                return Some(&self.entries[i]);
            }
        }
        proof {
            assert(self.entries@.subrange(0, 0) =~= Seq::<Timezone>::empty());
        }
        None
    }
}

} // verus!
