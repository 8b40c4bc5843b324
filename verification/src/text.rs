//! Shared character and sequence helpers: digit classification, the numeric
//! value of a digit string, locating characters in a row, splitting and
//! trimming, and parsing unsigned integers.

use vstd::prelude::*;

verus! {

/// A decimal digit `'0'..='9'`.
pub open spec fn is_digit_char(c: char) -> bool {
    '0' as u32 <= c as u32 && c as u32 <= '9' as u32
}

/// The numeric value of a single digit character.
pub open spec fn char_val(c: char) -> nat
    recommends
        is_digit_char(c),
{
    (c as u32 - '0' as u32) as nat
}

/// The numeric value of a digit string, most significant digit first.
pub open spec fn digits_val(s: Seq<char>) -> nat
    decreases s.len(),
{
    if s.len() == 0 {
        0
    } else {
        digits_val(s.drop_last()) * 10 + char_val(s.last())
    }
}

/// The position of the first digit of `row` at or after column `x`,
/// if any digit stands there.
pub open spec fn first_digit_at_or_after(row: Seq<char>, x: int) -> Option<int>
    decreases row.len() - x,
{
    if x < 0 || x >= row.len() {
        None
    } else if is_digit_char(row[x]) {
        Some(x)
    } else {
        first_digit_at_or_after(row, x + 1)
    }
}

/// The column just past the digit run that starts at `x`: the first
/// position at or after `x` that is not a digit of `row`.
pub open spec fn run_end_from(row: Seq<char>, x: int) -> int
    decreases row.len() - x,
{
    if 0 <= x < row.len() && is_digit_char(row[x]) {
        run_end_from(row, x + 1)
    } else {
        x
    }
}

/// What `first_digit_at_or_after` returns: the first digit position in
/// `[x, row.len())`, with nothing but non-digits before it.
pub proof fn lemma_first_digit_props(row: Seq<char>, x: int)
    requires
        0 <= x,
    ensures
        match first_digit_at_or_after(row, x) {
            Some(s) => x <= s < row.len() && is_digit_char(row[s]) && forall|j: int|
                x <= j < s ==> !is_digit_char(row[j]),
            None => forall|j: int| x <= j < row.len() ==> !is_digit_char(row[j]),
        },
    decreases row.len() - x,
{
    if x < row.len() && !is_digit_char(row[x]) {
        lemma_first_digit_props(row, x + 1);
    }
}

/// What `run_end_from` returns: the cells of `[x, end)` are digits and
/// `end` is the row's end or a non-digit cell.
pub proof fn lemma_run_end_props(row: Seq<char>, x: int)
    requires
        0 <= x <= row.len(),
    ensures
        x <= run_end_from(row, x) <= row.len(),
        forall|j: int| x <= j < run_end_from(row, x) ==> is_digit_char(row[j]),
        run_end_from(row, x) < row.len() ==> !is_digit_char(row[run_end_from(row, x)]),
        0 <= x < row.len() && is_digit_char(row[x]) ==> run_end_from(row, x) > x,
    decreases row.len() - x,
{
    if 0 <= x < row.len() && is_digit_char(row[x]) {
        lemma_run_end_props(row, x + 1);
    }
}

/// A scan that has seen only non-digits up to `i` pins down
/// `first_digit_at_or_after`.
pub proof fn lemma_first_digit_exact(row: Seq<char>, x: int, i: int)
    requires
        0 <= x <= i <= row.len(),
        forall|j: int| x <= j < i ==> !is_digit_char(row[j]),
    ensures
        i < row.len() && is_digit_char(row[i]) ==> first_digit_at_or_after(row, x) == Some(i),
        i == row.len() ==> first_digit_at_or_after(row, x) is None,
    decreases i - x,
{
    if x < i {
        lemma_first_digit_exact(row, x + 1, i);
    }
}

/// Extending a digit string on the right never lowers its value.
pub proof fn lemma_digits_val_prefix(s: Seq<char>, i: int)
    requires
        0 <= i <= s.len(),
    ensures
        digits_val(s.subrange(0, i)) <= digits_val(s),
    decreases s.len() - i,
{
    if i < s.len() {
        let t = s.subrange(0, i + 1);
        assert(t.drop_last() =~= s.subrange(0, i));
        assert(digits_val(s.subrange(0, i)) <= digits_val(t));
        lemma_digits_val_prefix(s, i + 1);
        assert(s.subrange(0, s.len() as int) =~= s);
    } else {
        assert(s.subrange(0, i) =~= s);
    }
}

/// A whitespace character as these records may hold it.
pub open spec fn is_space_char(c: char) -> bool {
    c == ' ' || c == '\t' || c == '\n' || c == '\r'
}

/// The position of the first `sep` in `s` at or after `x`.
pub open spec fn first_sep_at_or_after(s: Seq<char>, sep: char, x: int) -> Option<int>
    decreases s.len() - x,
{
    if x < 0 || x >= s.len() {
        None
    } else if s[x] == sep {
        Some(x)
    } else {
        first_sep_at_or_after(s, sep, x + 1)
    }
}

/// What `first_sep_at_or_after` returns.
pub proof fn lemma_first_sep_props(s: Seq<char>, sep: char, x: int)
    requires
        0 <= x,
    ensures
        match first_sep_at_or_after(s, sep, x) {
            Some(i) => x <= i < s.len() && s[i] == sep && forall|j: int|
                x <= j < i ==> s[j] != sep,
            None => forall|j: int| x <= j < s.len() ==> s[j] != sep,
        },
    decreases s.len() - x,
{
    if x < s.len() && s[x] != sep {
        lemma_first_sep_props(s, sep, x + 1);
    }
}

/// A scan that has seen no separator up to `i` pins down
/// `first_sep_at_or_after`.
pub proof fn lemma_first_sep_exact(s: Seq<char>, sep: char, x: int, i: int)
    requires
        0 <= x <= i <= s.len(),
        forall|j: int| x <= j < i ==> s[j] != sep,
    ensures
        i < s.len() && s[i] == sep ==> first_sep_at_or_after(s, sep, x) == Some(i),
        i == s.len() ==> first_sep_at_or_after(s, sep, x) is None,
    decreases i - x,
{
    if x < i {
        lemma_first_sep_exact(s, sep, x + 1, i);
    }
}

/// `s` split on `sep`: the pieces between separators, in order. A
/// string without a separator is one piece; the separators themselves
/// are dropped.
pub open spec fn spec_split(s: Seq<char>, sep: char) -> Seq<Seq<char>>
    decreases s.len(),
{
    match first_sep_at_or_after(s, sep, 0) {
        None => seq![s],
        Some(i) => {
            proof {
                lemma_first_sep_props(s, sep, 0);
            }
            seq![s.subrange(0, i)] + spec_split(s.subrange(i + 1, s.len() as int), sep)
        },
    }
}

/// Splitting a string without separators gives it back whole.
pub proof fn lemma_split_no_sep(t: Seq<char>, sep: char)
    requires
        forall|j: int| 0 <= j < t.len() ==> t[j] != sep,
    ensures
        spec_split(t, sep) == seq![t],
{
    lemma_first_sep_exact(t, sep, 0, t.len() as int);
}

/// Splitting peels off the piece before the first separator.
pub proof fn lemma_split_at_first(t: Seq<char>, sep: char, i: int)
    requires
        0 <= i < t.len(),
        t[i] == sep,
        forall|j: int| 0 <= j < i ==> t[j] != sep,
    ensures
        spec_split(t, sep) == seq![t.subrange(0, i)] + spec_split(
            t.subrange(i + 1, t.len() as int),
            sep,
        ),
{
    lemma_first_sep_exact(t, sep, 0, i);
}

/// `s` without its leading whitespace.
pub open spec fn trim_start(s: Seq<char>) -> Seq<char>
    decreases s.len(),
{
    if s.len() > 0 && is_space_char(s[0]) {
        trim_start(s.drop_first())
    } else {
        s
    }
}

/// `s` without its trailing whitespace.
pub open spec fn trim_end(s: Seq<char>) -> Seq<char>
    decreases s.len(),
{
    if s.len() > 0 && is_space_char(s.last()) {
        trim_end(s.drop_last())
    } else {
        s
    }
}

/// `s` without leading and trailing whitespace.
pub open spec fn spec_trim(s: Seq<char>) -> Seq<char> {
    trim_end(trim_start(s))
}

/// A scan that has seen only whitespace up to `a`, stopped at the end
/// or on a non-space, pins down `trim_start`.
pub proof fn lemma_trim_start_exact(s: Seq<char>, a: int)
    requires
        0 <= a <= s.len(),
        forall|j: int| 0 <= j < a ==> is_space_char(s[j]),
        a < s.len() ==> !is_space_char(s[a]),
    ensures
        trim_start(s) == s.subrange(a, s.len() as int),
    decreases a,
{
    if a == 0 {
        if s.len() > 0 && is_space_char(s[0]) {
            assert(false);
        }
        assert(s.subrange(0, s.len() as int) =~= s);
    } else {
        let t = s.drop_first();
        assert(forall|j: int| 0 <= j < a - 1 ==> is_space_char(t[j]));
        lemma_trim_start_exact(t, a - 1);
        assert(t.subrange(a - 1, t.len() as int) =~= s.subrange(a, s.len() as int));
    }
}

/// A scan backward over whitespace down to `b`, stopped at the start
/// or on a non-space, pins down `trim_end`.
pub proof fn lemma_trim_end_exact(s: Seq<char>, b: int)
    requires
        0 <= b <= s.len(),
        forall|j: int| b <= j < s.len() ==> is_space_char(s[j]),
        b > 0 ==> !is_space_char(s[b - 1]),
    ensures
        trim_end(s) == s.subrange(0, b),
    decreases s.len() - b,
{
    if b == s.len() {
        if s.len() > 0 && is_space_char(s.last()) {
            assert(false);
        }
        assert(s.subrange(0, b) =~= s);
    } else {
        let t = s.drop_last();
        assert(forall|j: int| b <= j < t.len() ==> is_space_char(t[j]));
        lemma_trim_end_exact(t, b);
        assert(t.subrange(0, b) =~= s.subrange(0, b));
    }
}

/// Every character of `s` is a digit.
pub open spec fn all_digits(s: Seq<char>) -> bool {
    forall|i: int| 0 <= i < s.len() ==> is_digit_char(#[trigger] s[i])
}

/// The number `s` denotes: an optional leading `'+'`, then one or more
/// digits whose value fits in a `u32` — or nothing, when `s` is not of
/// that shape.
pub open spec fn spec_parse_u32(s: Seq<char>) -> Option<u32> {
    let body = if s.len() > 0 && s[0] == '+' {
        s.drop_first()
    } else {
        s
    };
    if body.len() > 0 && all_digits(body) && digits_val(body) <= u32::MAX {
        Some(digits_val(body) as u32)
    } else {
        None
    }
}

/// The number `s` denotes, or zero when it denotes none.
pub open spec fn spec_parse_u32_or_zero(s: Seq<char>) -> u32 {
    match spec_parse_u32(s) {
        Some(v) => v,
        None => 0,
    }
}

/// Executable digit test.
pub fn is_digit(c: char) -> (b: bool)
    ensures
        b == is_digit_char(c),
{
    let u = c as u32;
    '0' as u32 <= u && u <= '9' as u32
}

/// Executable value of a digit character.
pub fn digit_value(c: char) -> (v: u32)
    requires
        is_digit_char(c),
    ensures
        v == char_val(c),
        v <= 9,
{
    c as u32 - '0' as u32
}

/// The characters of a string as a vector, in order.
pub fn chars_of(s: &str) -> (v: Vec<char>)
    ensures
        v@ == s@,
{
    let n = s.unicode_len();
    let mut v: Vec<char> = Vec::new();
    let mut i: usize = 0;
    while i < n
        invariant
            n == s@.len(),
            i <= n,
            v@ == s@.subrange(0, i as int),
        decreases n - i,
    {
        v.push(s.get_char(i));
        i = i + 1;
        proof {
            assert(v@ =~= s@.subrange(0, i as int));
        }
    }
    proof {
        assert(v@ =~= s@);
    }
    v
}

/// Executable space test.
pub fn is_space(c: char) -> (b: bool)
    ensures
        b == is_space_char(c),
{
    c == ' ' || c == '\t' || c == '\n' || c == '\r'
}

/// A copy of `s[a..b]`.
pub fn subvec(s: &Vec<char>, a: usize, b: usize) -> (v: Vec<char>)
    requires
        a <= b <= s@.len(),
    ensures
        v@ == s@.subrange(a as int, b as int),
{
    let mut v: Vec<char> = Vec::new();
    let mut i: usize = a;
    while i < b
        invariant
            a <= i <= b <= s@.len(),
            v@ == s@.subrange(a as int, i as int),
        decreases b - i,
    {
        v.push(s[i]);
        i = i + 1;
        proof {
            assert(v@ =~= s@.subrange(a as int, i as int));
        }
    }
    v
}

/// Whether two character vectors hold the same characters.
pub fn chars_eq(a: &Vec<char>, b: &Vec<char>) -> (r: bool)
    ensures
        r == (a@ == b@),
{
    if a.len() != b.len() {
        return false;
    }
    let n = a.len();
    let mut i: usize = 0;
    while i < n
        invariant
            n == a@.len() == b@.len(),
            i <= n,
            forall|j: int| 0 <= j < i ==> a@[j] == b@[j],
        decreases n - i,
    {
        if a[i] != b[i] {
            return false;
        }
        i = i + 1;
    }
    proof {
        assert(a@ =~= b@);
    }
    true
}

/// Splits `s` on `sep`, dropping the separators.
pub fn split_char(s: &Vec<char>, sep: char) -> (parts: Vec<Vec<char>>)
    ensures
        parts.deep_view() == spec_split(s@, sep),
{
    let n = s.len();
    let mut parts: Vec<Vec<char>> = Vec::new();
    let mut cs: usize = 0;
    let mut p: usize = 0;
    proof {
        assert(s@.subrange(0, n as int) =~= s@);
        assert(parts.deep_view() =~~= Seq::<Seq<char>>::empty());
        assert(parts.deep_view() + spec_split(s@, sep) =~~= spec_split(s@, sep));
    }
    while p < n
        invariant
            n == s@.len(),
            cs <= p <= n,
            forall|j: int| cs <= j < p ==> s@[j] != sep,
            spec_split(s@, sep) == parts.deep_view() + spec_split(
                s@.subrange(cs as int, n as int),
                sep,
            ),
        decreases n - p,
    {
        if s[p] == sep {
            let chunk = subvec(s, cs, p);
            proof {
                let suffix = s@.subrange(cs as int, n as int);
                lemma_split_at_first(suffix, sep, p as int - cs as int);
                assert(suffix.subrange(0, p as int - cs as int) =~= s@.subrange(
                    cs as int,
                    p as int,
                ));
                assert(suffix.subrange(p as int - cs as int + 1, suffix.len() as int)
                    =~= s@.subrange(p as int + 1, n as int));
            }
            let ghost old_parts = parts.deep_view();
            parts.push(chunk);
            proof {
                assert(parts.deep_view() =~~= old_parts + seq![s@.subrange(cs as int, p as int)]);
                assert(old_parts + (seq![s@.subrange(cs as int, p as int)] + spec_split(
                    s@.subrange(p as int + 1, n as int),
                    sep,
                )) =~~= parts.deep_view() + spec_split(s@.subrange(p as int + 1, n as int), sep));
            }
            cs = p + 1;
        }
        p = p + 1;
    }
    let chunk = subvec(s, cs, n);
    proof {
        let suffix = s@.subrange(cs as int, n as int);
        lemma_split_no_sep(suffix, sep);
    }
    let ghost old_parts = parts.deep_view();
    parts.push(chunk);
    proof {
        assert(parts.deep_view() =~~= old_parts + seq![s@.subrange(cs as int, n as int)]);
    }
    parts
}

/// A copy of `s` without leading and trailing whitespace.
pub fn trim_chars(s: &Vec<char>) -> (t: Vec<char>)
    ensures
        t@ == spec_trim(s@),
{
    let n = s.len();
    let mut a: usize = 0;
    while a < n && is_space(s[a])
        invariant
            n == s@.len(),
            a <= n,
            forall|j: int| 0 <= j < a ==> is_space_char(s@[j]),
        decreases n - a,
    {
        a = a + 1;
    }
    proof {
        lemma_trim_start_exact(s@, a as int);
    }
    let ghost ts = trim_start(s@);
    let mut b: usize = n;
    while b > a && is_space(s[b - 1])
        invariant
            a <= b <= n,
            n == s@.len(),
            forall|j: int| b <= j < n ==> is_space_char(s@[j]),
        decreases b,
    {
        b = b - 1;
    }
    proof {
        assert(ts == s@.subrange(a as int, n as int));
        assert(forall|j: int| b as int - a as int <= j < ts.len() ==> is_space_char(ts[j]));
        lemma_trim_end_exact(ts, b as int - a as int);
        assert(ts.subrange(0, b as int - a as int) =~= s@.subrange(a as int, b as int));
    }
    subvec(s, a, b)
}

/// Parses an unsigned number: an optional leading `'+'`, then digits.
pub fn parse_u32(s: &Vec<char>) -> (r: Option<u32>)
    ensures
        r == spec_parse_u32(s@),
{
    let n = s.len();
    let start: usize = if n > 0 && s[0] == '+' {
        1
    } else {
        0
    };
    let ghost body = if s@.len() > 0 && s@[0] == '+' {
        s@.drop_first()
    } else {
        s@
    };
    proof {
        assert(body =~= s@.subrange(start as int, n as int));
    }
    if start == n {
        return None;
    }
    let mut val: u64 = 0;
    let mut j: usize = start;
    while j < n
        invariant
            start <= j <= n,
            n == s@.len(),
            start as int <= 1,
            body == s@.subrange(start as int, n as int),
            body == (if s@.len() > 0 && s@[0] == '+' {
                s@.drop_first()
            } else {
                s@
            }),
            forall|k: int| start <= k < j ==> is_digit_char(s@[k]),
            val <= u32::MAX,
            val as nat == digits_val(s@.subrange(start as int, j as int)),
        decreases n - j,
    {
        let c = s[j];
        if !is_digit(c) {
            proof {
                assert(!is_digit_char(body[j as int - start as int]));
                assert(!all_digits(body));
            }
            return None;
        }
        proof {
            assert(s@.subrange(start as int, j as int + 1).drop_last() =~= s@.subrange(
                start as int,
                j as int,
            ));
        }
        val = val * 10 + digit_value(c) as u64;
        j = j + 1;
        if val > u32::MAX as u64 {
            proof {
                if all_digits(body) {
                    lemma_digits_val_prefix(body, j as int - start as int);
                    assert(body.subrange(0, j as int - start as int) =~= s@.subrange(
                        start as int,
                        j as int,
                    ));
                }
            }
            return None;
        }
    }
    proof {
        assert(s@.subrange(start as int, n as int) =~= body);
        assert(forall|k: int| 0 <= k < body.len() ==> is_digit_char(body[k]));
    }
    Some(val as u32)
}

/// Parses an unsigned number, or yields zero when `s` denotes none.
pub fn parse_u32_or_zero(s: &Vec<char>) -> (r: u32)
    ensures
        r == spec_parse_u32_or_zero(s@),
{
    match parse_u32(s) {
        Some(v) => v,
        None => 0,
    }
}

} // verus!
