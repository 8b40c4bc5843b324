//! Calibration lines: each line hides digits, written either as digit
//! characters or spelled out as words. The first and the last such
//! digit of a line combine into a two-digit calibration value.

use vstd::prelude::*;
use crate::text::{
    is_digit_char, char_val, is_digit, digit_value, chars_of, first_digit_at_or_after,
    lemma_first_digit_props, lemma_first_digit_exact,
};

verus! {

/// The position of the last digit character of `s`.
pub open spec fn last_digit_index(s: Seq<char>) -> Option<int>
    decreases s.len(),
{
    if s.len() == 0 {
        None
    } else if is_digit_char(s.last()) {
        Some(s.len() - 1)
    } else {
        last_digit_index(s.drop_last())
    }
}

/// What `last_digit_index` returns: the last digit position, with
/// nothing but non-digits after it.
pub proof fn lemma_last_digit_props(s: Seq<char>)
    ensures
        match last_digit_index(s) {
            Some(i) => 0 <= i < s.len() && is_digit_char(s[i]) && forall|j: int|
                i < j < s.len() ==> !is_digit_char(s[j]),
            None => forall|j: int| 0 <= j < s.len() ==> !is_digit_char(s[j]),
        },
    decreases s.len(),
{
    if s.len() > 0 && !is_digit_char(s.last()) {
        let t = s.drop_last();
        lemma_last_digit_props(t);
        assert(forall|j: int| 0 <= j < t.len() ==> t[j] == s[j]);
    }
}

/// A backward scan that has seen only non-digits down to `i` pins down
/// `last_digit_index`.
pub proof fn lemma_last_digit_exact(s: Seq<char>, i: int)
    requires
        0 <= i <= s.len(),
        forall|j: int| i <= j < s.len() ==> !is_digit_char(s[j]),
    ensures
        i > 0 && is_digit_char(s[i - 1]) ==> last_digit_index(s) == Some(i - 1),
        i == 0 ==> last_digit_index(s) is None,
    decreases s.len() - i,
{
    if i < s.len() {
        let t = s.drop_last();
        assert(forall|j: int| i <= j < t.len() ==> !is_digit_char(t[j]));
        lemma_last_digit_exact(t, i);
    }
}

/// What `find_first_number` reports: the position and value of the
/// first digit character — of the last one when scanning reversed,
/// with its position counted from the line's end.
pub open spec fn spec_find_first_number(s: Seq<char>, reverse: bool) -> Option<(int, nat)> {
    if reverse {
        match last_digit_index(s) {
            None => None,
            Some(i) => Some((s.len() - 1 - i, char_val(s[i]))),
        }
    } else {
        match first_digit_at_or_after(s, 0) {
            None => None,
            Some(i) => Some((i, char_val(s[i]))),
        }
    }
}

/// The first digit character of the line, or the last one when
/// `reverse` is set, with its index then counted from the end.
pub fn find_first_number(line: &String, reverse: bool) -> (r: Option<(usize, u32)>)
    ensures
        match r {
            None => spec_find_first_number(line@, reverse) is None,
            Some((i, v)) => spec_find_first_number(line@, reverse) == Some((i as int, v as nat)),
        },
{
    let cs = chars_of(line.as_str());
    let n = cs.len();
    if reverse {
        let mut i: usize = n;
        while i > 0 && !is_digit(cs[i - 1])
            invariant
                i <= n,
                n == cs@.len(),
                cs@ == line@,
                forall|j: int| i <= j < n ==> !is_digit_char(cs@[j]),
            decreases i,
        {
            i = i - 1;
        }
        proof {
            lemma_last_digit_exact(cs@, i as int);
        }
        if i == 0 {
            None
        } else {
            Some((n - i, digit_value(cs[i - 1])))
        }
    } else {
        let mut i: usize = 0;
        while i < n && !is_digit(cs[i])
            invariant
                i <= n,
                n == cs@.len(),
                cs@ == line@,
                forall|j: int| 0 <= j < i ==> !is_digit_char(cs@[j]),
            decreases n - i,
        {
            i = i + 1;
        }
        proof {
            lemma_first_digit_exact(cs@, 0, i as int);
        }
        if i == n {
            None
        } else {
            Some((i, digit_value(cs[i])))
        }
    }
}

/// The spelled digit words, `one` through `nine`; empty outside that
/// range.
pub open spec fn word_chars(k: int) -> Seq<char> {
    if k == 1 {
        seq!['o', 'n', 'e']
    } else if k == 2 {
        seq!['t', 'w', 'o']
    } else if k == 3 {
        seq!['t', 'h', 'r', 'e', 'e']
    } else if k == 4 {
        seq!['f', 'o', 'u', 'r']
    } else if k == 5 {
        seq!['f', 'i', 'v', 'e']
    } else if k == 6 {
        seq!['s', 'i', 'x']
    } else if k == 7 {
        seq!['s', 'e', 'v', 'e', 'n']
    } else if k == 8 {
        seq!['e', 'i', 'g', 'h', 't']
    } else if k == 9 {
        seq!['n', 'i', 'n', 'e']
    } else {
        Seq::empty()
    }
}

/// Whether `w` occurs in `p` starting at position `i`.
pub open spec fn matches_at(p: Seq<char>, w: Seq<char>, i: int) -> bool {
    0 <= i && i + w.len() <= p.len() && p.subrange(i, i + w.len()) == w
}

/// The first occurrence of `w` in `p` at or after `i`.
pub open spec fn first_match_from(p: Seq<char>, w: Seq<char>, i: int) -> Option<int>
    decreases p.len() - i,
{
    if i < 0 || i + w.len() > p.len() {
        None
    } else if p.subrange(i, i + w.len()) == w {
        Some(i)
    } else {
        proof {
            if w.len() == 0 {
                assert(p.subrange(i, i + w.len()) =~= w);
            }
        }
        first_match_from(p, w, i + 1)
    }
}

/// The first occurrence of `w` in `p`.
pub open spec fn first_match(p: Seq<char>, w: Seq<char>) -> Option<int> {
    first_match_from(p, w, 0)
}

/// What `first_match_from` returns: the earliest match position, with
/// no match before it.
pub proof fn lemma_first_match_props(p: Seq<char>, w: Seq<char>, x: int)
    requires
        0 <= x,
    ensures
        match first_match_from(p, w, x) {
            Some(i) => x <= i && matches_at(p, w, i) && forall|j: int|
                x <= j < i ==> !matches_at(p, w, j),
            None => forall|j: int| x <= j ==> !matches_at(p, w, j),
        },
    decreases p.len() - x,
{
    if !(x + w.len() > p.len()) && !(p.subrange(x, x + w.len()) == w) {
        if w.len() == 0 {
            assert(p.subrange(x, x + w.len()) =~= w);
        }
        lemma_first_match_props(p, w, x + 1);
    }
}

/// A scan that has found no match up to `i` pins down `first_match`.
pub proof fn lemma_first_match_exact(p: Seq<char>, w: Seq<char>, x: int, i: int)
    requires
        0 <= x <= i,
        forall|j: int| x <= j < i ==> !matches_at(p, w, j),
    ensures
        matches_at(p, w, i) ==> first_match_from(p, w, x) == Some(i),
        i + w.len() > p.len() ==> first_match_from(p, w, x) is None,
    decreases i - x,
{
    if x < i {
        assert(!matches_at(p, w, x));
        lemma_first_match_exact(p, w, x + 1, i);
    }
}

/// The line, or the word, in the orientation the scan uses: reversed
/// when scanning from the right.
pub open spec fn oriented(s: Seq<char>, reverse: bool) -> Seq<char> {
    if reverse {
        s.reverse()
    } else {
        s
    }
}

/// The best spelled digit among the words `1..=k`: the one whose first
/// occurrence in `p` comes earliest, earlier words winning ties.
pub open spec fn best_word_upto(p: Seq<char>, reverse: bool, k: int) -> Option<(int, int)>
    decreases k,
{
    if k <= 0 {
        None
    } else {
        let prev = best_word_upto(p, reverse, k - 1);
        match first_match(p, oriented(word_chars(k), reverse)) {
            None => prev,
            Some(idx) => match prev {
                None => Some((k, idx)),
                Some((pk, pidx)) => if idx < pidx {
                    Some((k, idx))
                } else {
                    prev
                },
            },
        }
    }
}

/// The best spelled digit names a word in range, at a match position.
pub proof fn lemma_best_word_props(p: Seq<char>, reverse: bool, k: int)
    ensures
        match best_word_upto(p, reverse, k) {
            Some((bk, bidx)) => 1 <= bk <= k && first_match(p, oriented(word_chars(bk), reverse))
                == Some(bidx),
            None => true,
        },
    decreases k,
{
    if k > 0 {
        lemma_best_word_props(p, reverse, k - 1);
    }
}

/// What `find_first_word_number` reports: the earliest spelled digit of
/// the oriented line, its reported position and its value. A reversed
/// scan reports the position of the word's last character, counted
/// from the line's end.
pub open spec fn spec_find_first_word_number(s: Seq<char>, reverse: bool) -> Option<(int, int)> {
    match best_word_upto(oriented(s, reverse), reverse, 9) {
        None => None,
        Some((k, idx)) => Some(
            (
                if reverse {
                    idx + word_chars(k).len() - 1
                } else {
                    idx
                },
                k,
            ),
        ),
    }
}

fn word_vec(k: usize) -> (v: Vec<char>)
    requires
        1 <= k <= 9,
    ensures
        v@ == word_chars(k as int),
{
    let mut v: Vec<char> = Vec::new();
    if k == 1 {
        v.push('o');
        v.push('n');
        v.push('e');
    } else if k == 2 {
        v.push('t');
        v.push('w');
        v.push('o');
    } else if k == 3 {
        v.push('t');
        v.push('h');
        v.push('r');
        v.push('e');
        v.push('e');
    } else if k == 4 {
        v.push('f');
        v.push('o');
        v.push('u');
        v.push('r');
    } else if k == 5 {
        v.push('f');
        v.push('i');
        v.push('v');
        v.push('e');
    } else if k == 6 {
        v.push('s');
        v.push('i');
        v.push('x');
    } else if k == 7 {
        v.push('s');
        v.push('e');
        v.push('v');
        v.push('e');
        v.push('n');
    } else if k == 8 {
        v.push('e');
        v.push('i');
        v.push('g');
        v.push('h');
        v.push('t');
    } else {
        v.push('n');
        v.push('i');
        v.push('n');
        v.push('e');
    }
    proof {
        assert(v@ =~= word_chars(k as int));
    }
    v
}

/// A copy of `v` with its characters in the opposite order.
fn reverse_chars(v: &Vec<char>) -> (r: Vec<char>)
    ensures
        r@ == v@.reverse(),
{
    let n = v.len();
    let mut r: Vec<char> = Vec::new();
    let mut i: usize = 0;
    while i < n
        invariant
            i <= n,
            n == v@.len(),
            r@.len() == i as int,
            forall|j: int| 0 <= j < i ==> r@[j] == v@[n - 1 - j],
        decreases n - i,
    {
        r.push(v[n - 1 - i]);
        i = i + 1;
    }
    proof {
        assert(r@ =~= v@.reverse());
    }
    r
}

/// The first occurrence of `w` in `p`, by a straightforward scan.
fn find_sub(p: &Vec<char>, w: &Vec<char>) -> (r: Option<usize>)
    ensures
        match r {
            None => first_match(p@, w@) is None,
            Some(i) => first_match(p@, w@) == Some(i as int),
        },
{
    let n = p.len();
    let m = w.len();
    if m > n {
        proof {
            lemma_first_match_exact(p@, w@, 0, 0);
        }
        return None;
    }
    let mut i: usize = 0;
    while i <= n - m
        invariant
            m <= n,
            n == p@.len(),
            m == w@.len(),
            i <= n - m + 1,
            forall|j: int| 0 <= j < i ==> !matches_at(p@, w@, j),
        decreases n - i,
    {
        let mut j: usize = 0;
        let mut all_eq = true;
        while j < m
            invariant
                j <= m,
                i + m <= n,
                n == p@.len(),
                m == w@.len(),
                all_eq == (forall|t: int| 0 <= t < j ==> p@[i + t] == w@[t]),
            decreases m - j,
        {
            if p[i + j] != w[j] {
                all_eq = false;
                proof {
                    assert(p@[i as int + j as int] != w@[j as int]);
                }
                j = m;
            } else {
                j = j + 1;
            }
        }
        if all_eq {
            proof {
                assert(p@.subrange(i as int, i as int + m as int) =~= w@);
                lemma_first_match_exact(p@, w@, 0, i as int);
            }
            return Some(i);
        }
        proof {
            if matches_at(p@, w@, i as int) {
                let t = choose|t: int| 0 <= t < m && p@[i + t] != w@[t];
                assert(p@.subrange(i as int, i as int + m as int)[t] == w@[t]);
                assert(false);
            }
        }
        i = i + 1;
    }
    proof {
        lemma_first_match_exact(p@, w@, 0, i as int);
    }
    None
}

/// The earliest spelled digit of the line — scanning the reversed line
/// for reversed words when `reverse` is set — with its reported
/// position and its value.
pub fn find_first_word_number(line: &String, reverse: bool) -> (r: Option<(usize, u32)>)
    ensures
        match r {
            None => spec_find_first_word_number(line@, reverse) is None,
            Some((i, v)) => spec_find_first_word_number(line@, reverse) == Some(
                (i as int, v as int),
            ),
        },
{
    let cs = chars_of(line.as_str());
    let p = if reverse {
        reverse_chars(&cs)
    } else {
        cs
    };
    proof {
        assert(p@ == oriented(line@, reverse));
    }
    let mut best: Option<(usize, usize)> = None;
    let mut k: usize = 1;
    while k <= 9
        invariant
            1 <= k <= 10,
            p@ == oriented(line@, reverse),
            match best {
                None => best_word_upto(p@, reverse, k as int - 1) is None,
                Some((bk, bidx)) => {
                    &&& 1 <= bk <= 9
                    &&& best_word_upto(p@, reverse, k as int - 1) == Some(
                        (bk as int, bidx as int),
                    )
                    &&& bidx + word_chars(bk as int).len() <= p@.len()
                },
            },
        decreases 10 - k,
    {
        let w0 = word_vec(k);
        let w = if reverse {
            reverse_chars(&w0)
        } else {
            w0
        };
        proof {
            assert(w@ == oriented(word_chars(k as int), reverse));
        }
        let m = find_sub(&p, &w);
        proof {
            lemma_first_match_props(p@, w@, 0);
        }
        if let Some(idx) = m {
            match best {
                None => {
                    best = Some((k, idx));
                },
                Some((bk, bidx)) => {
                    if idx < bidx {
                        best = Some((k, idx));
                    }
                },
            }
        }
        k = k + 1;
    }
    match best {
        None => None,
        Some((bk, bidx)) => {
            let plen = p.len();
            let wlen = word_vec(bk).len();
            proof {
                assert(word_chars(bk as int).len() >= 1);
                assert(bidx + wlen <= plen);
            }
            if reverse {
                Some((bidx + wlen - 1, bk as u32))
            } else {
                Some((bidx, bk as u32))
            }
        },
    }
}

/// What `find_number_by_word_and_digit` reports: whichever of the digit
/// character and the spelled digit comes first in scan order, the digit
/// character winning ties.
pub open spec fn spec_find_number_by_word_and_digit(s: Seq<char>, reverse: bool) -> Option<int> {
    match (spec_find_first_number(s, reverse), spec_find_first_word_number(s, reverse)) {
        (None, None) => None,
        (Some((i0, n0)), None) => Some(n0 as int),
        (None, Some((i1, n1))) => Some(n1),
        (Some((i0, n0)), Some((i1, n1))) => if i0 < i1 {
            Some(n0 as int)
        } else {
            Some(n1)
        },
    }
}

/// The first hidden digit of the line, whether written as a digit
/// character or spelled as a word — the last one when `reverse` is set.
pub fn find_number_by_word_and_digit(line: &String, reverse: bool) -> (r: Option<u32>)
    ensures
        match r {
            None => spec_find_number_by_word_and_digit(line@, reverse) is None,
            Some(v) => spec_find_number_by_word_and_digit(line@, reverse) == Some(v as int),
        },
{
    let d = find_first_number(line, reverse);
    let w = find_first_word_number(line, reverse);
    match (d, w) {
        (None, None) => None,
        (Some((i0, n0)), None) => Some(n0),
        (None, Some((i1, n1))) => Some(n1),
        (Some((i0, n0)), Some((i1, n1))) => if i0 < i1 {
            Some(n0)
        } else {
            Some(n1)
        },
    }
}

/// Every reported digit value is at most nine.
pub proof fn lemma_found_number_bounds(s: Seq<char>, reverse: bool)
    ensures
        match spec_find_number_by_word_and_digit(s, reverse) {
            Some(v) => 0 <= v <= 9,
            None => true,
        },
{
    if reverse {
        lemma_last_digit_props(s);
    } else {
        lemma_first_digit_props(s, 0);
    }
    lemma_best_word_props(oriented(s, reverse), reverse, 9);
    match spec_find_first_number(s, reverse) {
        Some((i, n)) => {
            if reverse {
                let idx = last_digit_index(s)->0;
                assert(is_digit_char(s[idx]));
                assert(n == char_val(s[idx]));
                assert(n <= 9);
            } else {
                let idx = first_digit_at_or_after(s, 0)->0;
                assert(is_digit_char(s[idx]));
                assert(n == char_val(s[idx]));
                assert(n <= 9);
            }
        },
        None => {},
    }
    match spec_find_first_word_number(s, reverse) {
        Some((i, n)) => {
            assert(n <= 9);
        },
        None => {},
    }
}

/// What `calibration_value` reports: ten times the first hidden digit
/// plus the last one, or nothing for a line without digits.
pub open spec fn spec_calibration_value(s: Seq<char>) -> Option<int> {
    match (
        spec_find_number_by_word_and_digit(s, false),
        spec_find_number_by_word_and_digit(s, true),
    ) {
        (Some(a), Some(b)) => Some(10 * a + b),
        _ => None,
    }
}

/// The two-digit calibration value of one line: its first hidden digit
/// as the tens, its last as the units.
pub fn calibration_value(line: &String) -> (r: Option<u32>)
    ensures
        match r {
            None => spec_calibration_value(line@) is None,
            Some(v) => spec_calibration_value(line@) == Some(v as int),
        },
{
    let first = find_number_by_word_and_digit(line, false);
    let last = find_number_by_word_and_digit(line, true);
    proof {
        lemma_found_number_bounds(line@, false);
        lemma_found_number_bounds(line@, true);
    }
    match (first, last) {
        (Some(a), Some(b)) => Some(10 * a + b),
        _ => None,
    }
}

} // verus!
