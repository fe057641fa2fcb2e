//! Character-level helpers shared by the value grammars: decimal digits,
//! greedy digit runs, and numeral values with overflow detection.
use vstd::prelude::*;

verus! {

/// A decimal digit character.
pub open spec fn is_digit(c: char) -> bool {
    '0' <= c && c <= '9'
}

/// Numeric value of a digit character.
pub open spec fn digit_val(c: char) -> int {
    c as int - '0' as int
}

/// Every character of `s` is a decimal digit.
pub open spec fn all_digits(s: Seq<char>) -> bool {
    forall|i: int| 0 <= i < s.len() ==> is_digit(#[trigger] s[i])
}

/// The number denoted by a digit string, most significant digit first.
/// The empty string denotes 0; callers require a nonempty run.
pub open spec fn digits_val(s: Seq<char>) -> int
    decreases s.len(),
{
    if s.len() <= 0 {
        0
    } else {
        digits_val(s.drop_last()) * 10 + digit_val(s.last())
    }
}

/// Length of the greedy digit prefix of `s`.
pub open spec fn digit_run(s: Seq<char>) -> int
    decreases s.len(),
{
    if s.len() == 0 || !is_digit(s[0]) {
        0
    } else {
        1 + digit_run(s.drop_first())
    }
}

pub proof fn lemma_digits_val_nonneg(s: Seq<char>)
    requires
        all_digits(s),
    ensures
        digits_val(s) >= 0,
    decreases s.len(),
{
    if s.len() > 0 {
        assert(all_digits(s.drop_last()));
        lemma_digits_val_nonneg(s.drop_last());
    }
}

/// A digit string's value only grows as more digits are appended.
pub proof fn lemma_digits_val_prefix(s: Seq<char>, k: int)
    requires
        all_digits(s),
        0 <= k <= s.len(),
    ensures
        digits_val(s.subrange(0, k)) <= digits_val(s),
    decreases s.len() - k,
{
    if k < s.len() {
        let t = s.subrange(0, k + 1);
        assert(t.drop_last() =~= s.subrange(0, k));
        assert(all_digits(s.subrange(0, k)));
        lemma_digits_val_nonneg(s.subrange(0, k));
        assert(digits_val(t) == digits_val(s.subrange(0, k)) * 10 + digit_val(s[k]));
        assert(digits_val(s.subrange(0, k)) * 10 >= digits_val(s.subrange(0, k))) by {
            lemma_digits_val_nonneg(s.subrange(0, k));
            assert(digits_val(s.subrange(0, k)) >= 0);
        }
        lemma_digits_val_prefix(s, k + 1);
    } else {
        assert(s.subrange(0, k) =~= s);
    }
}

/// `digit_run` is pinned down by its boundary: `k` digits followed by a
/// non-digit (or the end of the string).
pub proof fn lemma_digit_run_is(s: Seq<char>, k: int)
    requires
        0 <= k <= s.len(),
        forall|x: int| 0 <= x < k ==> is_digit(#[trigger] s[x]),
        k < s.len() ==> !is_digit(s[k]),
    ensures
        digit_run(s) == k,
    decreases s.len(),
{
    if k == 0 {
    } else {
        lemma_digit_run_is(s.drop_first(), k - 1);
    }
}

pub proof fn lemma_digit_run_bounds(s: Seq<char>)
    ensures
        0 <= digit_run(s) <= s.len(),
        forall|x: int| 0 <= x < digit_run(s) ==> is_digit(#[trigger] s[x]),
        digit_run(s) < s.len() ==> !is_digit(s[digit_run(s)]),
    decreases s.len(),
{
    if s.len() > 0 && is_digit(s[0]) {
        lemma_digit_run_bounds(s.drop_first());
        assert forall|x: int| 0 <= x < digit_run(s) implies is_digit(#[trigger] s[x]) by {
            if x > 0 {
                assert(is_digit(s.drop_first()[x - 1]));
            }
        }
        if digit_run(s) < s.len() {
            assert(!is_digit(s.drop_first()[digit_run(s) - 1]));
        }
    }
}

/// Scan forward from `i` over decimal digits, stopping at `limit`; returns
/// the first index at or after `i` holding a non-digit (or `limit`).
pub fn digit_run_end(s: &str, i: usize, limit: usize) -> (j: usize)
    requires
        i <= limit <= s@.len(),
    ensures
        i <= j <= limit,
        forall|k: int| i <= k < j ==> is_digit(#[trigger] s@[k]),
        j < limit ==> !is_digit(s@[j as int]),
{
    let mut j = i;
    while j < limit
        invariant
            i <= j <= limit <= s@.len(),
            forall|k: int| i <= k < j ==> is_digit(#[trigger] s@[k]),
        decreases limit - j,
    {
        let c = s.get_char(j);
        if !('0' <= c && c <= '9') {
            return j;
        }
        j = j + 1;
    }
    j
}

/// Value of the digit substring `s[i..j]`, or `None` when it exceeds
/// `u64::MAX`.
pub fn digits_to_u64(s: &str, i: usize, j: usize) -> (r: Option<u64>)
    requires
        i <= j <= s@.len(),
        forall|k: int| i <= k < j ==> is_digit(#[trigger] s@[k]),
    ensures
        match r {
            Some(v) => v == digits_val(s@.subrange(i as int, j as int)),
            None => digits_val(s@.subrange(i as int, j as int)) > u64::MAX,
        },
{
    let mut acc: u64 = 0;
    let mut k = i;
    proof {
        assert(s@.subrange(i as int, i as int) =~= Seq::<char>::empty());
    }
    while k < j
        invariant
            i <= k <= j <= s@.len(),
            forall|x: int| i <= x < j ==> is_digit(#[trigger] s@[x]),
            acc == digits_val(s@.subrange(i as int, k as int)),
        decreases j - k,
    {
        let c = s.get_char(k);
        let d: u64 = (c as u32 as u64) - 48;
        proof {
            assert(is_digit(s@[k as int]));
            assert(d == digit_val(s@[k as int]));
        }
        proof {
            let t = s@.subrange(i as int, k as int + 1);
            assert(t.drop_last() =~= s@.subrange(i as int, k as int));
            assert(digits_val(t) == acc * 10 + d);
        }
        let next = match acc.checked_mul(10) {
            Some(m) => m.checked_add(d),
            None => None,
        };
        match next {
            Some(v) => {
                acc = v;
            },
            None => {
                proof {
                    let full = s@.subrange(i as int, j as int);
                    assert(all_digits(full));
                    let t = s@.subrange(i as int, k as int + 1);
                    assert(t =~= full.subrange(0, k - i + 1));
                    lemma_digits_val_prefix(full, k - i + 1);
                }
                return None;
            },
        }
        k = k + 1;
    }
    Some(acc)
}

/// Index of the first occurrence of `c` in `s`, or `s.len()` when absent.
pub open spec fn char_idx(s: Seq<char>, c: char) -> int
    decreases s.len(),
{
    if s.len() == 0 {
        0
    } else if s[0] == c {
        0
    } else {
        1 + char_idx(s.drop_first(), c)
    }
}

/// `char_idx` is pinned down by its boundary.
pub proof fn lemma_char_idx_is(s: Seq<char>, c: char, k: int)
    requires
        0 <= k <= s.len(),
        forall|x: int| 0 <= x < k ==> (#[trigger] s[x]) != c,
        k < s.len() ==> s[k] == c,
    ensures
        char_idx(s, c) == k,
    decreases s.len(),
{
    if k > 0 {
        lemma_char_idx_is(s.drop_first(), c, k - 1);
    }
}

/// Scans forward from `i` to the first occurrence of `c` (or `limit`).
pub fn find_char(s: &str, i: usize, limit: usize, c: char) -> (j: usize)
    requires
        i <= limit <= s@.len(),
    ensures
        i <= j <= limit,
        forall|k: int| i <= k < j ==> (#[trigger] s@[k]) != c,
        j < limit ==> s@[j as int] == c,
{
    let mut j = i;
    while j < limit
        invariant
            i <= j <= limit <= s@.len(),
            forall|k: int| i <= k < j ==> (#[trigger] s@[k]) != c,
        decreases limit - j,
    {
        if s.get_char(j) == c {
            return j;
        }
        j = j + 1;
    }
    j
}

/// Character-for-character string equality.
pub fn str_eq(a: &str, b: &str) -> (r: bool)
    ensures
        r == (a@ == b@),
{
    let la = a.unicode_len();
    let lb = b.unicode_len();
    if la != lb {
        return false;
    }
    let mut i: usize = 0;
    while i < la
        invariant
            i <= la,
            la == a@.len(),
            la == b@.len(),
            forall|j: int| 0 <= j < i ==> a@[j] == b@[j],
        decreases la - i,
    {
        if a.get_char(i) != b.get_char(i) {
            return false;
        }
        i = i + 1;
    }
    proof {
        assert(a@ =~= b@);
    }
    true
}

} // verus!
