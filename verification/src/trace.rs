use std::ops::Range;
use vstd::prelude::*;

use crate::text::{chars_of, string_from_chars};

verus! {

/// Why a range of node counts to trace does not parse.
pub enum TraceRangeError {
    /// The part before `..=` or `..` is no count; it is given.
    InvalidStart(String),
    /// The part after `..=` or `..` is no count; it is given.
    InvalidEnd(String),
    /// The range starts after it ends.
    StartAfterEnd,
    /// The text, without `..`, is no count; it is given.
    InvalidValue(String),
    /// The range would end past the largest count.
    TooLarge,
}

/// What a range of node counts to trace reads as: the counts from the first
/// up to the second, or an error with the part of the text at fault.
pub enum TraceOutcome {
    Counts(nat, nat),
    InvalidStart(Seq<char>),
    InvalidEnd(Seq<char>),
    StartAfterEnd,
    InvalidValue(Seq<char>),
    TooLarge,
}

pub open spec fn is_digit(c: char) -> bool {
    '0' <= c <= '9'
}

/// The value of a run of decimal digits.
pub open spec fn digits_value(s: Seq<char>) -> nat
    decreases s.len(),
{
    if s.len() == 0 {
        0
    } else {
        digits_value(s.drop_last()) * 10 + (s.last() as nat - '0' as nat) as nat
    }
}

/// The digits of a count: the text without a leading `+`.
pub open spec fn count_digits(s: Seq<char>) -> Seq<char> {
    if s.len() > 0 && s[0] == '+' {
        s.drop_first()
    } else {
        s
    }
}

/// A count as the standard library reads one: an optional `+`, then one
/// or more decimal digits, of a value that fits in `usize`.
pub open spec fn count_of(s: Seq<char>) -> Option<nat> {
    let d = count_digits(s);
    if d.len() > 0 && (forall|i: int| 0 <= i < d.len() ==> is_digit(#[trigger] d[i])) && digits_value(d)
        <= usize::MAX {
        Some(digits_value(d))
    } else {
        None
    }
}

/// The first place, from `k` on, where `pat` stands in `s`.
pub open spec fn find_from(s: Seq<char>, pat: Seq<char>, k: int) -> Option<int>
    decreases s.len() + 1 - k,
{
    if k < 0 || k + pat.len() > s.len() {
        None
    } else if s.subrange(k, k + pat.len()) == pat {
        Some(k)
    } else {
        find_from(s, pat, k + 1)
    }
}

/// The range between the two counts around the separator at `k`, the end
/// taken one further when `inclusive`.
pub open spec fn counts_around(s: Seq<char>, k: int, sep_len: int, inclusive: bool) -> TraceOutcome {
    let start = s.subrange(0, k);
    let end = s.subrange(k + sep_len, s.len() as int);
    match count_of(start) {
        None => TraceOutcome::InvalidStart(start),
        Some(a) => match count_of(end) {
            None => TraceOutcome::InvalidEnd(end),
            Some(b) => if a > b {
                TraceOutcome::StartAfterEnd
            } else if !inclusive {
                TraceOutcome::Counts(a, b)
            } else if b + 1 > usize::MAX {
                TraceOutcome::TooLarge
            } else {
                TraceOutcome::Counts(a, b + 1)
            },
        },
    }
}

/// A range of node counts: `start..=end` (both counted), `start..end` (the
/// end not counted), or one count `n`, read as `n..n+1`. The first `..=`
/// counts before the first `..`.
pub open spec fn trace_outcome(s: Seq<char>) -> TraceOutcome {
    match find_from(s, seq!['.', '.', '='], 0) {
        Some(k) => counts_around(s, k, 3, true),
        None => match find_from(s, seq!['.', '.'], 0) {
            Some(k) => counts_around(s, k, 2, false),
            None => match count_of(s) {
                None => TraceOutcome::InvalidValue(s),
                Some(n) => if n + 1 > usize::MAX {
                    TraceOutcome::TooLarge
                } else {
                    TraceOutcome::Counts(n, n + 1)
                },
            },
        },
    }
}

/// A nonempty run of decimal digits.
pub open spec fn all_digits(d: Seq<char>) -> bool {
    d.len() > 0 && forall|i: int| 0 <= i < d.len() ==> is_digit(#[trigger] d[i])
}

/// The search finds `pat` at `j` when it stands there and no place from `i`
/// on before `j` starts with its first character.
proof fn lemma_find_at(s: Seq<char>, pat: Seq<char>, i: int, j: int)
    requires
        0 <= i <= j,
        pat.len() > 0,
        j + pat.len() <= s.len(),
        s.subrange(j, j + pat.len()) == pat,
        forall|k: int| i <= k < j ==> s[k] != pat[0],
    ensures
        find_from(s, pat, i) == Some(j),
    decreases j - i,
{
    if i < j {
        assert(s.subrange(i, i + pat.len())[0] == s[i]);
        lemma_find_at(s, pat, i + 1, j);
    }
}

/// The search finds nothing when `pat` stands nowhere from `i` on.
proof fn lemma_find_none(s: Seq<char>, pat: Seq<char>, i: int)
    requires
        0 <= i,
        pat.len() > 0,
        forall|k: int| i <= k && k + pat.len() <= s.len() ==> #[trigger] s.subrange(k, k + pat.len()) != pat,
    ensures
        find_from(s, pat, i) is None,
    decreases s.len() + 1 - i,
{
    if i + pat.len() <= s.len() {
        lemma_find_none(s, pat, i + 1);
    }
}

/// A count alone, written in decimal, reads as the range of that one count.
pub proof fn lemma_single_count(d: Seq<char>)
    requires
        all_digits(d),
        digits_value(d) < usize::MAX,
    ensures
        trace_outcome(d) == TraceOutcome::Counts(digits_value(d), digits_value(d) + 1),
{
    let incl = seq!['.', '.', '='];
    let excl = seq!['.', '.'];
    assert forall|k: int| 0 <= k && k + incl.len() <= d.len() implies #[trigger] d.subrange(k, k + incl.len()) != incl by {
        assert(d.subrange(k, k + 3)[0] == d[k]);
        assert(is_digit(d[k]));
    }
    lemma_find_none(d, incl, 0);
    assert forall|k: int| 0 <= k && k + excl.len() <= d.len() implies #[trigger] d.subrange(k, k + excl.len()) != excl by {
        assert(d.subrange(k, k + 2)[0] == d[k]);
        assert(is_digit(d[k]));
    }
    lemma_find_none(d, excl, 0);
    assert(count_digits(d) == d) by {
        assert(is_digit(d[0]));
    }
}

/// Counts `a` and `b`, written in decimal around `..=`, read as the counts
/// from `a` up to and with `b`; exactly when `a` comes after `b` they are
/// refused as a range that starts after it ends.
pub proof fn lemma_inclusive_range(da: Seq<char>, db: Seq<char>)
    requires
        all_digits(da),
        all_digits(db),
        digits_value(da) <= usize::MAX,
        digits_value(db) < usize::MAX,
    ensures
        ({
            let s = da + seq!['.', '.', '='] + db;
            let a = digits_value(da);
            let b = digits_value(db);
            &&& a <= b ==> trace_outcome(s) == TraceOutcome::Counts(a, b + 1)
            &&& a > b ==> trace_outcome(s) == TraceOutcome::StartAfterEnd
        }),
{
    let sep = seq!['.', '.', '='];
    let s = da + sep + db;
    let n = da.len() as int;
    assert(s.subrange(n, n + 3) =~= sep);
    assert forall|k: int| 0 <= k < n implies s[k] != sep[0] by {
        assert(s[k] == da[k]);
        assert(is_digit(da[k]));
    }
    lemma_find_at(s, sep, 0, n);
    assert(s.subrange(0, n) =~= da);
    assert(s.subrange(n + 3, s.len() as int) =~= db);
    assert(count_digits(da) == da) by {
        assert(is_digit(da[0]));
    }
    assert(count_digits(db) == db) by {
        assert(is_digit(db[0]));
    }
}

/// Counts `a` and `b`, written in decimal around `..`, read as the counts
/// from `a` up to `b`, without it; exactly when `a` comes after `b` they are
/// refused as a range that starts after it ends.
pub proof fn lemma_exclusive_range(da: Seq<char>, db: Seq<char>)
    requires
        all_digits(da),
        all_digits(db),
        digits_value(da) <= usize::MAX,
        digits_value(db) <= usize::MAX,
    ensures
        ({
            let s = da + seq!['.', '.'] + db;
            let a = digits_value(da);
            let b = digits_value(db);
            &&& a <= b ==> trace_outcome(s) == TraceOutcome::Counts(a, b)
            &&& a > b ==> trace_outcome(s) == TraceOutcome::StartAfterEnd
        }),
{
    let sep = seq!['.', '.'];
    let incl = seq!['.', '.', '='];
    let s = da + sep + db;
    let n = da.len() as int;
    assert forall|k: int| 0 <= k && k + incl.len() <= s.len() implies #[trigger] s.subrange(k, k + incl.len()) != incl by {
        assert(s.subrange(k, k + 3)[2] == s[k + 2]);
        if k + 2 < n {
            assert(s[k + 2] == da[k + 2]);
            assert(is_digit(da[k + 2]));
        } else if k + 2 >= n + 2 {
            assert(s[k + 2] == db[k + 2 - n - 2]);
            assert(is_digit(db[k + 2 - n - 2]));
        } else {
            assert(s[k + 2] == '.');
        }
    }
    lemma_find_none(s, incl, 0);
    assert(s.subrange(n, n + 2) =~= sep);
    assert forall|k: int| 0 <= k < n implies s[k] != sep[0] by {
        assert(s[k] == da[k]);
        assert(is_digit(da[k]));
    }
    lemma_find_at(s, sep, 0, n);
    assert(s.subrange(0, n) =~= da);
    assert(s.subrange(n + 2, s.len() as int) =~= db);
    assert(count_digits(da) == da) by {
        assert(is_digit(da[0]));
    }
    assert(count_digits(db) == db) by {
        assert(is_digit(db[0]));
    }
}

/// The first place, from `k` on, where `pat` stands in `s`.
fn find(s: &Vec<char>, pat: &Vec<char>) -> (r: Option<usize>)
    requires
        pat@.len() > 0,
    ensures
        match find_from(s@, pat@, 0) {
            Some(j) => r == Some(j as usize) && 0 <= j && j + pat@.len() <= s@.len(),
            None => r is None,
        },
{
    let n = s.len();
    let m = pat.len();
    if m > n {
        proof {
            assert(find_from(s@, pat@, 0) is None);
        }
        return None;
    }
    let mut k: usize = 0;
    while k <= n - m
        invariant
            n == s@.len(),
            m == pat@.len(),
            m > 0,
            m <= n,
            k <= n,
            find_from(s@, pat@, 0) == find_from(s@, pat@, k as int),
        decreases n - k,
    {
        let mut j: usize = 0;
        let mut same = true;
        while j < m
            invariant
                n == s@.len(),
                m == pat@.len(),
                k + m <= n,
                j <= m,
                same <==> forall|q: int| 0 <= q < j ==> s@[k + q] == pat@[q],
            decreases m - j,
        {
            if s[k + j] != pat[j] {
                same = false;
            }
            j = j + 1;
        }
        proof {
            if same {
                assert(s@.subrange(k as int, k + m) =~= pat@);
            } else {
                let q = choose|q: int| 0 <= q < m && s@[k + q] != pat@[q];
                assert(s@.subrange(k as int, k + m)[q] != pat@[q]);
            }
        }
        if same {
            return Some(k);
        }
        k = k + 1;
    }
    proof {
        assert(find_from(s@, pat@, k as int) is None);
    }
    None
}

/// Reads a count: an optional `+`, then decimal digits, of a value that
/// fits in `usize`.
fn parse_count(s: &Vec<char>, from: usize, to: usize) -> (r: Option<usize>)
    requires
        from <= to <= s@.len(),
    ensures
        r == (match count_of(s@.subrange(from as int, to as int)) {
            Some(v) => Some(v as usize),
            None => None::<usize>,
        }),
{
    let ghost t = s@.subrange(from as int, to as int);
    let mut i = from;
    if i < to && s[i] == '+' {
        i = i + 1;
    }
    let ghost d = s@.subrange(i as int, to as int);
    proof {
        assert(count_digits(t) =~= d);
    }
    if i == to {
        return None;
    }
    let start = i;
    let mut value: usize = 0;
    while i < to
        invariant
            from <= start <= i <= to <= s@.len(),
            start < to,
            d == s@.subrange(start as int, to as int),
            count_digits(t) == d,
            t == s@.subrange(from as int, to as int),
            forall|q: int| start <= q < i ==> is_digit(#[trigger] s@[q]),
            value == digits_value(s@.subrange(start as int, i as int)),
        decreases to - i,
    {
        let c = s[i];
        if !('0' <= c && c <= '9') {
            proof {
                assert(d[i - start] == c);
            }
            return None;
        }
        let digit = (c as u32 - '0' as u32) as usize;
        proof {
            let w = s@.subrange(start as int, i + 1);
            assert(w.drop_last() =~= s@.subrange(start as int, i as int));
            assert(digits_value(w) == value * 10 + digit);
        }
        if value > (usize::MAX - digit) / 10 {
            proof {
                assert(value * 10 + digit > usize::MAX) by (nonlinear_arith)
                    requires
                        value > (usize::MAX - digit) / 10,
                        digit <= 9,
                ;
                if forall|q: int| 0 <= q < d.len() ==> is_digit(#[trigger] d[q]) {
                    lemma_digits_grow(d, (i - start + 1) as int);
                    assert(s@.subrange(start as int, i + 1) =~= d.subrange(0, (i - start + 1) as int));
                }
            }
            return None;
        }
        value = value * 10 + digit;
        i = i + 1;
    }
    proof {
        assert(s@.subrange(start as int, to as int) =~= d);
        assert forall|q: int| 0 <= q < d.len() implies is_digit(#[trigger] d[q]) by {
            assert(d[q] == s@[start + q]);
        }
    }
    Some(value)
}

/// A run of digits is worth at least any run it begins with.
proof fn lemma_digits_grow(d: Seq<char>, k: int)
    requires
        0 <= k <= d.len(),
        forall|i: int| 0 <= i < d.len() ==> is_digit(#[trigger] d[i]),
    ensures
        digits_value(d.subrange(0, k)) <= digits_value(d),
    decreases d.len() - k,
{
    if k < d.len() {
        lemma_digits_grow(d, k + 1);
        let w = d.subrange(0, k + 1);
        assert(w.drop_last() =~= d.subrange(0, k));
        assert(is_digit(d[k]));
    } else {
        assert(d.subrange(0, k) =~= d);
    }
}

/// The part of the text between two places, as a string.
fn part(s: &Vec<char>, from: usize, to: usize) -> (r: String)
    requires
        from <= to <= s@.len(),
    ensures
        r@ == s@.subrange(from as int, to as int),
{
    let mut v: Vec<char> = Vec::new();
    let mut i = from;
    while i < to
        invariant
            from <= i <= to <= s@.len(),
            v@ == s@.subrange(from as int, i as int),
        decreases to - i,
    {
        v.push(s[i]);
        i = i + 1;
        proof {
            assert(v@ =~= s@.subrange(from as int, i as int));
        }
    }
    string_from_chars(&v)
}

/// The range between the counts around the separator at `k`.
fn range_around(s: &Vec<char>, k: usize, sep_len: usize, inclusive: bool) -> (r: Result<Range<usize>, TraceRangeError>)
    requires
        k + sep_len <= s@.len(),
    ensures
        outcome_is(r, counts_around(s@, k as int, sep_len as int, inclusive)),
{
    let n = s.len();
    let start = match parse_count(s, 0, k) {
        Some(v) => v,
        None => {
            return Err(TraceRangeError::InvalidStart(part(s, 0, k)));
        },
    };
    let end = match parse_count(s, k + sep_len, n) {
        Some(v) => v,
        None => {
            return Err(TraceRangeError::InvalidEnd(part(s, k + sep_len, n)));
        },
    };
    if start > end {
        return Err(TraceRangeError::StartAfterEnd);
    }
    if !inclusive {
        return Ok(start..end);
    }
    if end == usize::MAX {
        return Err(TraceRangeError::TooLarge);
    }
    Ok(start..end + 1)
}

/// The result matches what the text reads as.
pub open spec fn outcome_is(r: Result<Range<usize>, TraceRangeError>, o: TraceOutcome) -> bool {
    match r {
        Ok(rg) => o == TraceOutcome::Counts(rg.start as nat, rg.end as nat),
        Err(TraceRangeError::InvalidStart(t)) => o == TraceOutcome::InvalidStart(t@),
        Err(TraceRangeError::InvalidEnd(t)) => o == TraceOutcome::InvalidEnd(t@),
        Err(TraceRangeError::StartAfterEnd) => o == TraceOutcome::StartAfterEnd,
        Err(TraceRangeError::InvalidValue(t)) => o == TraceOutcome::InvalidValue(t@),
        Err(TraceRangeError::TooLarge) => o == TraceOutcome::TooLarge,
    }
}

/// Reads a range of node counts to trace: `start..=end`, `start..end`, or
/// a single count.
pub fn parse_trace_range(s: &str) -> (r: Result<Range<usize>, TraceRangeError>)
    ensures
        outcome_is(r, trace_outcome(s@)),
{
    let chars = chars_of(s);
    let n = chars.len();
    let incl = vec!['.', '.', '='];
    proof {
        assert(incl@ =~= seq!['.', '.', '=']);
    }
    if let Some(k) = find(&chars, &incl) {
        return range_around(&chars, k, 3, true);
    }
    let excl = vec!['.', '.'];
    proof {
        assert(excl@ =~= seq!['.', '.']);
    }
    if let Some(k) = find(&chars, &excl) {
        return range_around(&chars, k, 2, false);
    }
    proof {
        assert(chars@.subrange(0, n as int) =~= chars@);
    }
    let value = match parse_count(&chars, 0, n) {
        Some(v) => v,
        None => {
            return Err(TraceRangeError::InvalidValue(part(&chars, 0, n)));
        },
    };
    if value == usize::MAX {
        return Err(TraceRangeError::TooLarge);
    }
    Ok(value..value + 1)
}

} // verus!
