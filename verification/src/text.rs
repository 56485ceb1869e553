//! Character-level helpers shared by the persisted-state codec and the
//! document parsers: decimal rendering and reading of `u64` values, newline
//! scanning, keyword matching, and substring extraction.

use vstd::prelude::*;
use vstd::string::{StrSliceExecFns, StringExecFns};

verus! {

/// The numeric value of a decimal digit; ten for any other character.
pub open spec fn digit_value(c: char) -> nat {
    if c == '0' {
        0
    } else if c == '1' {
        1
    } else if c == '2' {
        2
    } else if c == '3' {
        3
    } else if c == '4' {
        4
    } else if c == '5' {
        5
    } else if c == '6' {
        6
    } else if c == '7' {
        7
    } else if c == '8' {
        8
    } else if c == '9' {
        9
    } else {
        10
    }
}

/// Whether `c` is a decimal digit.
pub open spec fn is_digit(c: char) -> bool {
    digit_value(c) < 10
}

/// The digit character for `d` (meaningful for `d < 10`).
pub open spec fn digit_char(d: nat) -> char {
    if d == 0 {
        '0'
    } else if d == 1 {
        '1'
    } else if d == 2 {
        '2'
    } else if d == 3 {
        '3'
    } else if d == 4 {
        '4'
    } else if d == 5 {
        '5'
    } else if d == 6 {
        '6'
    } else if d == 7 {
        '7'
    } else if d == 8 {
        '8'
    } else {
        '9'
    }
}

/// The decimal digits of `n`, most significant first, without leading
/// zeros (a single zero for zero).
pub open spec fn u64_digits(n: nat) -> Seq<char>
    decreases n,
{
    if n < 10 {
        seq![digit_char(n)]
    } else {
        u64_digits(n / 10).push(digit_char(n % 10))
    }
}

/// The value of a digit string read as a decimal number.
pub open spec fn digits_val(s: Seq<char>) -> nat
    decreases s.len(),
{
    if s.len() == 0 {
        0
    } else {
        digits_val(s.drop_last()) * 10 + digit_value(s.last())
    }
}

/// Whether every character of `s` is a decimal digit.
pub open spec fn all_digits(s: Seq<char>) -> bool {
    forall|i: int| 0 <= i < s.len() ==> is_digit(#[trigger] s[i])
}

/// Reading the digits of `n` back yields `n`; the rendering is nonempty
/// and consists of digits only.
pub proof fn lemma_u64_digits(n: nat)
    ensures
        digits_val(u64_digits(n)) == n,
        all_digits(u64_digits(n)),
        u64_digits(n).len() >= 1,
    decreases n,
{
    if n < 10 {
        assert(u64_digits(n).drop_last() =~= Seq::<char>::empty());
        assert(u64_digits(n).last() == digit_char(n));
        assert(digit_value(digit_char(n)) == n);
        assert(digits_val(u64_digits(n)) == digits_val(Seq::<char>::empty()) * 10 + n);
    } else {
        lemma_u64_digits(n / 10);
        assert(u64_digits(n).drop_last() =~= u64_digits(n / 10));
        assert(u64_digits(n).last() == digit_char(n % 10));
        assert(digit_value(digit_char(n % 10)) == n % 10);
        assert(digits_val(u64_digits(n)) == digits_val(u64_digits(n / 10)) * 10 + n % 10);
        assert(n / 10 * 10 + n % 10 == n);
    }
}

/// A digit string is worth at least as much as any of its prefixes.
pub proof fn lemma_digits_val_prefix(s: Seq<char>, j: int)
    requires
        0 <= j <= s.len(),
    ensures
        digits_val(s.take(j)) <= digits_val(s),
    decreases s.len() - j,
{
    if j == s.len() {
        assert(s.take(j) =~= s);
    } else {
        assert(s.take(j + 1).drop_last() =~= s.take(j));
        assert(s.take(j + 1).last() == s[j]);
        lemma_digits_val_prefix(s, j + 1);
    }
}

/// The index of the first newline in `t` at or after `i`, or the length
/// of `t` if there is none.
pub open spec fn find_newline(t: Seq<char>, i: int) -> int
    decreases t.len() - i,
{
    if i >= t.len() {
        t.len() as int
    } else if t[i] == '\n' {
        i
    } else {
        find_newline(t, i + 1)
    }
}

/// `find_newline` returns `j` exactly when no newline stands in `[i, j)`
/// and `j` is a newline or the end.
pub proof fn lemma_find_newline_is(t: Seq<char>, i: int, j: int)
    requires
        0 <= i <= j <= t.len(),
        forall|k: int| i <= k < j ==> #[trigger] t[k] != '\n',
        j == t.len() || t[j] == '\n',
    ensures
        find_newline(t, i) == j,
    decreases j - i,
{
    if i < j {
        lemma_find_newline_is(t, i + 1, j);
    }
}

/// The first newline at or after `i`, bounded and newline-free before it.
pub proof fn lemma_find_newline(t: Seq<char>, i: int)
    requires
        0 <= i <= t.len(),
    ensures
        i <= find_newline(t, i) <= t.len(),
        forall|k: int| i <= k < find_newline(t, i) ==> #[trigger] t[k] != '\n',
        find_newline(t, i) < t.len() ==> t[find_newline(t, i)] == '\n',
    decreases t.len() - i,
{
    if i < t.len() && t[i] != '\n' {
        lemma_find_newline(t, i + 1);
    }
}

/// The index of the first newline in `s` at or after `from`, or the
/// length of `s` if there is none.
pub fn find_nl(s: &str, from: usize) -> (j: usize)
    requires
        from <= s@.len(),
    ensures
        j == find_newline(s@, from as int),
{
    let n = s.unicode_len();
    let mut j = from;
    while j < n
        invariant
            from <= j <= n,
            n == s@.len(),
            forall|k: int| from <= k < j ==> #[trigger] s@[k] != '\n',
        decreases n - j,
    {
        if s.get_char(j) == '\n' {
            proof {
                lemma_find_newline_is(s@, from as int, j as int);
            }
            return j;
        }
        j = j + 1;
    }
    proof {
        lemma_find_newline_is(s@, from as int, n as int);
    }
    j
}

/// Whether `kw` occurs in `t` starting at position `i`.
pub open spec fn starts_with_at(t: Seq<char>, i: int, kw: Seq<char>) -> bool {
    0 <= i && i + kw.len() <= t.len() && t.subrange(i, i + kw.len()) == kw
}

/// Whether `kw` occurs in `s` starting at position `i`.
pub fn check_prefix(s: &str, i: usize, kw: &str) -> (r: bool)
    ensures
        r == starts_with_at(s@, i as int, kw@),
{
    let n = s.unicode_len();
    let m = kw.unicode_len();
    if i > n || m > n - i {
        return false;
    }
    let mut k: usize = 0;
    while k < m
        invariant
            0 <= k <= m,
            i + m <= n,
            n == s@.len(),
            m == kw@.len(),
            forall|q: int| 0 <= q < k ==> s@[i + q] == #[trigger] kw@[q],
        decreases m - k,
    {
        if s.get_char(i + k) != kw.get_char(k) {
            proof {
                if s@.subrange(i as int, i + kw@.len()) == kw@ {
                    assert(s@.subrange(i as int, i + kw@.len())[k as int] == s@[i + k]);
                    assert(false);
                }
            }
            return false;
        }
        k = k + 1;
    }
    proof {
        assert(s@.subrange(i as int, i + kw@.len()) =~= kw@);
    }
    true
}

/// The characters of `s` from `from` (inclusive) to `to` (exclusive), as
/// an owned string.
pub fn extract_range(s: &str, from: usize, to: usize) -> (r: String)
    requires
        from <= to <= s@.len(),
    ensures
        r@ == s@.subrange(from as int, to as int),
{
    s.substring_char(from, to).to_owned()
}

/// The numeric value of the digit `c`; ten when `c` is no digit.
pub fn digit_of(c: char) -> (d: u8)
    ensures
        d as nat == digit_value(c),
{
    if c == '0' {
        0
    } else if c == '1' {
        1
    } else if c == '2' {
        2
    } else if c == '3' {
        3
    } else if c == '4' {
        4
    } else if c == '5' {
        5
    } else if c == '6' {
        6
    } else if c == '7' {
        7
    } else if c == '8' {
        8
    } else if c == '9' {
        9
    } else {
        10
    }
}

/// Append the decimal rendering of `n` to `out`.
pub fn append_u64(out: &mut String, n: u64)
    ensures
        final(out)@ == old(out)@ + u64_digits(n as nat),
    decreases n,
{
    if n >= 10 {
        append_u64(out, n / 10);
    }
    let d = n % 10;
    let ds: &str = if d == 0 {
        "0"
    } else if d == 1 {
        "1"
    } else if d == 2 {
        "2"
    } else if d == 3 {
        "3"
    } else if d == 4 {
        "4"
    } else if d == 5 {
        "5"
    } else if d == 6 {
        "6"
    } else if d == 7 {
        "7"
    } else if d == 8 {
        "8"
    } else {
        "9"
    };
    out.append(ds);
    proof {
        reveal_strlit("0");
        reveal_strlit("1");
        reveal_strlit("2");
        reveal_strlit("3");
        reveal_strlit("4");
        reveal_strlit("5");
        reveal_strlit("6");
        reveal_strlit("7");
        reveal_strlit("8");
        reveal_strlit("9");
        assert(ds@ =~= seq![digit_char((n % 10) as nat)]);
        if n < 10 {
            assert(u64_digits(n as nat) =~= seq![digit_char(n as nat)]);
            assert(final(out)@ =~= old(out)@ + u64_digits(n as nat));
        } else {
            assert((n as nat) / 10 == (n / 10) as nat && (n as nat) % 10 == (n % 10) as nat);
            assert(u64_digits(n as nat) =~= u64_digits((n / 10) as nat) + seq![digit_char(
                (n % 10) as nat,
            )]);
            assert(final(out)@ =~= old(out)@ + u64_digits(n as nat));
        }
    }
}

/// The end of the run of digits in `t` that starts at `i` and may reach up
/// to `end`: the first position in `[i, end)` holding no digit, or `end`.
pub open spec fn digit_run_end(t: Seq<char>, i: int, end: int) -> int
    decreases end - i,
{
    if !(0 <= i && i < end && end <= t.len()) {
        i
    } else if !is_digit(t[i]) {
        i
    } else {
        digit_run_end(t, i + 1, end)
    }
}

/// `digit_run_end` returns `j` exactly when digits fill `[i, j)` and `j`
/// is the end or holds no digit.
pub proof fn lemma_digit_run_end_is(t: Seq<char>, i: int, end: int, j: int)
    requires
        0 <= i <= j <= end <= t.len(),
        forall|k: int| i <= k < j ==> is_digit(#[trigger] t[k]),
        j == end || !is_digit(t[j]),
    ensures
        digit_run_end(t, i, end) == j,
    decreases j - i,
{
    if i < j {
        lemma_digit_run_end_is(t, i + 1, end, j);
    }
}

/// Read a decimal number in `s` from `from`, stopping before `end`: the
/// value of the longest digit run starting at `from` and the position
/// after it, or `None` when the run is empty or its value does not fit in
/// a `u64`.
pub fn parse_u64_run(s: &str, from: usize, end: usize) -> (r: Option<(u64, usize)>)
    requires
        from <= end <= s@.len(),
    ensures
        ({
            let e = digit_run_end(s@, from as int, end as int);
            match r {
                Some(p) => p.1 == e && e > from && digits_val(
                    s@.subrange(from as int, e),
                ) == p.0 as nat,
                None => e == from || digits_val(s@.subrange(from as int, e)) > u64::MAX as nat,
            }
        }),
{
    let mut e = from;
    let mut running = true;
    while running && e < end
        invariant
            from <= e <= end <= s@.len(),
            forall|k: int| from <= k < e ==> is_digit(#[trigger] s@[k]),
            !running ==> e < end && !is_digit(s@[e as int]),
        decreases end - e, if running { 1int } else { 0int },
    {
        if digit_of(s.get_char(e)) < 10 {
            e = e + 1;
        } else {
            running = false;
        }
    }
    proof {
        lemma_digit_run_end_is(s@, from as int, end as int, e as int);
    }
    if e == from {
        return None;
    }
    let ghost run = s@.subrange(from as int, e as int);
    let mut j = from;
    let mut val: u64 = 0;
    while j < e
        invariant
            from <= j <= e <= end <= s@.len(),
            digit_run_end(s@, from as int, end as int) == e as int,
            run == s@.subrange(from as int, e as int),
            forall|k: int| from <= k < e ==> is_digit(#[trigger] s@[k]),
            val as nat == digits_val(s@.subrange(from as int, j as int)),
        decreases e - j,
    {
        let c = s.get_char(j);
        let d = digit_of(c);
        let ghost prefix = s@.subrange(from as int, j as int);
        let ghost extended = s@.subrange(from as int, j + 1);
        proof {
            assert(extended.drop_last() =~= prefix);
            assert(extended.last() == s@[j as int]);
            assert(extended =~= run.take(j + 1 - from));
        }
        let overflowed = match val.checked_mul(10) {
            Some(v10) => {
                match v10.checked_add(d as u64) {
                    Some(v) => {
                        val = v;
                        false
                    },
                    None => true,
                }
            },
            None => true,
        };
        if overflowed {
            proof {
                assert(digits_val(extended) == val as nat * 10 + digit_value(s@[j as int]));
                assert(digits_val(extended) > u64::MAX as nat);
                lemma_digits_val_prefix(run, j + 1 - from);
            }
            return None;
        }
        j = j + 1;
    }
    proof {
        assert(s@.subrange(from as int, j as int) =~= run);
    }
    Some((val, j))
}

/// `digit_run_end` stays within `[i, end]` (or at `i` when the range is
/// empty).
pub proof fn lemma_digit_run_end_bounds(t: Seq<char>, i: int, end: int)
    requires
        0 <= i <= end <= t.len(),
    ensures
        i <= digit_run_end(t, i, end) <= end,
        forall|k: int| i <= k < digit_run_end(t, i, end) ==> is_digit(#[trigger] t[k]),
        digit_run_end(t, i, end) < end ==> !is_digit(t[digit_run_end(t, i, end)]),
    decreases end - i,
{
    if i < end && is_digit(t[i]) {
        lemma_digit_run_end_bounds(t, i + 1, end);
    }
}

/// The index of the first backtick in `t` at or after `i`, or the length
/// of `t` if there is none.
pub open spec fn find_backtick(t: Seq<char>, i: int) -> int
    decreases t.len() - i,
{
    if i >= t.len() {
        t.len() as int
    } else if t[i] == '`' {
        i
    } else {
        find_backtick(t, i + 1)
    }
}

/// `find_backtick` returns `j` exactly when no backtick stands in `[i, j)`
/// and `j` is a backtick or the end.
pub proof fn lemma_find_backtick_is(t: Seq<char>, i: int, j: int)
    requires
        0 <= i <= j <= t.len(),
        forall|k: int| i <= k < j ==> #[trigger] t[k] != '`',
        j == t.len() || t[j] == '`',
    ensures
        find_backtick(t, i) == j,
    decreases j - i,
{
    if i < j {
        lemma_find_backtick_is(t, i + 1, j);
    }
}

/// The first backtick at or after `i`, bounded and backtick-free before it.
pub proof fn lemma_find_backtick(t: Seq<char>, i: int)
    requires
        0 <= i <= t.len(),
    ensures
        i <= find_backtick(t, i) <= t.len(),
        forall|k: int| i <= k < find_backtick(t, i) ==> #[trigger] t[k] != '`',
        find_backtick(t, i) < t.len() ==> t[find_backtick(t, i)] == '`',
    decreases t.len() - i,
{
    if i < t.len() && t[i] != '`' {
        lemma_find_backtick(t, i + 1);
    }
}

/// The index of the first backtick in `s` at or after `from`, or the
/// length of `s` if there is none.
pub fn find_bt(s: &str, from: usize) -> (j: usize)
    requires
        from <= s@.len(),
    ensures
        j == find_backtick(s@, from as int),
{
    let n = s.unicode_len();
    let mut j = from;
    while j < n
        invariant
            from <= j <= n,
            n == s@.len(),
            forall|k: int| from <= k < j ==> #[trigger] s@[k] != '`',
        decreases n - j,
    {
        if s.get_char(j) == '`' {
            proof {
                lemma_find_backtick_is(s@, from as int, j as int);
            }
            return j;
        }
        j = j + 1;
    }
    proof {
        lemma_find_backtick_is(s@, from as int, n as int);
    }
    j
}

} // verus!
