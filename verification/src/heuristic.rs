//! The chapter-order heuristic.
//!
//! A title such as `"Chapter 12"`, `"S01E03"`, `"第3話"`, `"Vol. 4"`, `"#5"`
//! or `"12.jpg"` carries a number that orders chapters and pages.  The
//! heuristic extracts the first such number, scanning left to right: at each
//! position it tries, in order of preference, an optional marker (a
//! season/episode pair, a counter word, or a prefix sign), then any run of
//! whitespace, then one to three digits that must be closed by a counter
//! suffix, punctuation, whitespace, or the end of the title.  A title with
//! no match orders as 0.  The whole grammar is defined here as spec
//! functions, and [`episode_number`] is proved to compute it.

use vstd::prelude::*;

verus! {

/// An ASCII decimal digit.
pub open spec fn is_digit(c: char) -> bool {
    48 <= (c as u32) && (c as u32) <= 57
}

/// ASCII whitespace, the only whitespace the grammar recognizes.
pub open spec fn is_space(c: char) -> bool {
    c == ' ' || c == '\t' || c == '\n' || c == '\r' || c == '\u{b}' || c == '\u{c}'
}

/// A character that may close the digit group.
pub open spec fn is_terminator(c: char) -> bool {
    c == '話' || c == '巻' || c == '章' || c == '節' || c == '.' || c == '_' || c == '-'
        || is_space(c)
}

/// Case-insensitive match of `c` against a lowercase ASCII letter.
pub open spec fn eq_ci(c: char, lower: char) -> bool {
    c == lower || (c as u32) + 32 == (lower as u32)
}

/// End of the whitespace run that starts at `j`.
pub open spec fn space_run_end(s: Seq<char>, j: int) -> int
    decreases s.len() - j
        when 0 <= j <= s.len()
{
    if j >= s.len() {
        j
    } else if is_space(s[j]) {
        space_run_end(s, j + 1)
    } else {
        j
    }
}

/// End of the digit run that starts at `j`.
pub open spec fn digit_run_end(s: Seq<char>, j: int) -> int
    decreases s.len() - j
        when 0 <= j <= s.len()
{
    if j >= s.len() {
        j
    } else if is_digit(s[j]) {
        digit_run_end(s, j + 1)
    } else {
        j
    }
}

/// The number written by the digits `s[lo..hi]`.
pub open spec fn digits_value(s: Seq<char>, lo: int, hi: int) -> int
    decreases hi - lo
        when lo <= hi
{
    if lo >= hi {
        0
    } else {
        digits_value(s, lo, hi - 1) * 10 + ((s[hi - 1] as u32) - 48)
    }
}

pub open spec fn pow10(n: nat) -> int
    decreases n,
{
    if n == 0 {
        1
    } else {
        10 * pow10((n - 1) as nat)
    }
}

pub proof fn lemma_pow10_small()
    ensures
        pow10(0) == 1,
        pow10(1) == 10,
        pow10(2) == 100,
        pow10(3) == 1000,
        pow10(4) == 10000,
{
    reveal_with_fuel(pow10, 5);
}

pub proof fn lemma_digits_value_bound(s: Seq<char>, lo: int, hi: int)
    requires
        lo <= hi,
        forall|k: int| lo <= k < hi ==> is_digit(s[k]),
    ensures
        0 <= digits_value(s, lo, hi) < pow10((hi - lo) as nat),
    decreases hi - lo,
{
    if lo < hi {
        lemma_digits_value_bound(s, lo, hi - 1);
    }
}

/// The capture group of the grammar: whitespace, then one to three digits
/// closed by a terminator or the end of the title, starting at `j`.
pub open spec fn tail_match(s: Seq<char>, j: int) -> Option<int> {
    let j2 = space_run_end(s, j);
    let e = digit_run_end(s, j2);
    if j2 < e && e - j2 <= 3 && (e == s.len() || is_terminator(s[e])) {
        Some(digits_value(s, j2, e))
    } else {
        None
    }
}

/// A season/episode marker with a two-digit season: `S00E`.
pub open spec fn marker_se2(s: Seq<char>, i: int) -> bool {
    &&& i + 4 <= s.len()
    &&& eq_ci(s[i], 's')
    &&& is_digit(s[i + 1])
    &&& is_digit(s[i + 2])
    &&& eq_ci(s[i + 3], 'e')
}

/// A season/episode marker with a one-digit season: `S0E`.
pub open spec fn marker_se1(s: Seq<char>, i: int) -> bool {
    &&& i + 3 <= s.len()
    &&& eq_ci(s[i], 's')
    &&& is_digit(s[i + 1])
    &&& eq_ci(s[i + 2], 'e')
}

pub open spec fn marker_dai(s: Seq<char>, i: int) -> bool {
    i + 1 <= s.len() && s[i] == '第'
}

pub open spec fn marker_ep(s: Seq<char>, i: int) -> bool {
    i + 2 <= s.len() && eq_ci(s[i], 'e') && eq_ci(s[i + 1], 'p')
}

pub open spec fn marker_e(s: Seq<char>, i: int) -> bool {
    i + 1 <= s.len() && eq_ci(s[i], 'e')
}

pub open spec fn marker_episode(s: Seq<char>, i: int) -> bool {
    &&& i + 7 <= s.len()
    &&& eq_ci(s[i], 'e')
    &&& eq_ci(s[i + 1], 'p')
    &&& eq_ci(s[i + 2], 'i')
    &&& eq_ci(s[i + 3], 's')
    &&& eq_ci(s[i + 4], 'o')
    &&& eq_ci(s[i + 5], 'd')
    &&& eq_ci(s[i + 6], 'e')
}

pub open spec fn marker_ch(s: Seq<char>, i: int) -> bool {
    i + 2 <= s.len() && eq_ci(s[i], 'c') && eq_ci(s[i + 1], 'h')
}

pub open spec fn marker_chapter(s: Seq<char>, i: int) -> bool {
    &&& i + 7 <= s.len()
    &&& eq_ci(s[i], 'c')
    &&& eq_ci(s[i + 1], 'h')
    &&& eq_ci(s[i + 2], 'a')
    &&& eq_ci(s[i + 3], 'p')
    &&& eq_ci(s[i + 4], 't')
    &&& eq_ci(s[i + 5], 'e')
    &&& eq_ci(s[i + 6], 'r')
}

pub open spec fn marker_vol(s: Seq<char>, i: int) -> bool {
    i + 3 <= s.len() && eq_ci(s[i], 'v') && eq_ci(s[i + 1], 'o') && eq_ci(s[i + 2], 'l')
}

pub open spec fn marker_volume(s: Seq<char>, i: int) -> bool {
    &&& i + 6 <= s.len()
    &&& eq_ci(s[i], 'v')
    &&& eq_ci(s[i + 1], 'o')
    &&& eq_ci(s[i + 2], 'l')
    &&& eq_ci(s[i + 3], 'u')
    &&& eq_ci(s[i + 4], 'm')
    &&& eq_ci(s[i + 5], 'e')
}

pub open spec fn marker_hash(s: Seq<char>, i: int) -> bool {
    i + 1 <= s.len() && s[i] == '#'
}

/// The number captured by a match of the grammar that starts exactly at
/// `i`, trying the optional markers in order of preference and the empty
/// marker last.
pub open spec fn match_at(s: Seq<char>, i: int) -> Option<int> {
    if marker_se2(s, i) && tail_match(s, i + 4) is Some {
        tail_match(s, i + 4)
    } else if marker_se1(s, i) && tail_match(s, i + 3) is Some {
        tail_match(s, i + 3)
    } else if marker_dai(s, i) && tail_match(s, i + 1) is Some {
        tail_match(s, i + 1)
    } else if marker_ep(s, i) && tail_match(s, i + 2) is Some {
        tail_match(s, i + 2)
    } else if marker_e(s, i) && tail_match(s, i + 1) is Some {
        tail_match(s, i + 1)
    } else if marker_episode(s, i) && tail_match(s, i + 7) is Some {
        tail_match(s, i + 7)
    } else if marker_ch(s, i) && tail_match(s, i + 2) is Some {
        tail_match(s, i + 2)
    } else if marker_chapter(s, i) && tail_match(s, i + 7) is Some {
        tail_match(s, i + 7)
    } else if marker_vol(s, i) && tail_match(s, i + 3) is Some {
        tail_match(s, i + 3)
    } else if marker_volume(s, i) && tail_match(s, i + 6) is Some {
        tail_match(s, i + 6)
    } else if marker_hash(s, i) && tail_match(s, i + 1) is Some {
        tail_match(s, i + 1)
    } else {
        tail_match(s, i)
    }
}

/// The number of the leftmost match at or after `i`, or 0 if none.
pub open spec fn first_match_from(s: Seq<char>, i: int) -> int
    decreases s.len() - i
        when 0 <= i <= s.len()
{
    if i >= s.len() {
        0
    } else {
        match match_at(s, i) {
            Some(v) => v,
            None => first_match_from(s, i + 1),
        }
    }
}

/// The ordering key of a title: the number of its leftmost grammar match,
/// or 0 if the title has none.
pub open spec fn order_key(title: Seq<char>) -> int {
    first_match_from(title, 0)
}

pub proof fn lemma_tail_match_bound(s: Seq<char>, j: int)
    requires
        0 <= j <= s.len(),
    ensures
        match tail_match(s, j) {
            Some(v) => 0 <= v <= 999,
            None => true,
        },
{
    let j2 = space_run_end(s, j);
    lemma_space_run_end_bounds(s, j);
    let e = digit_run_end(s, j2);
    lemma_digit_run_end_bounds(s, j2);
    if j2 < e && e - j2 <= 3 && (e == s.len() || is_terminator(s[e])) {
        lemma_digit_run_all_digits(s, j2);
        lemma_digits_value_bound(s, j2, e);
        lemma_pow10_small();
    }
}

pub proof fn lemma_space_run_end_bounds(s: Seq<char>, j: int)
    requires
        0 <= j <= s.len(),
    ensures
        j <= space_run_end(s, j) <= s.len(),
    decreases s.len() - j,
{
    if j < s.len() && is_space(s[j]) {
        lemma_space_run_end_bounds(s, j + 1);
    }
}

pub proof fn lemma_digit_run_end_bounds(s: Seq<char>, j: int)
    requires
        0 <= j <= s.len(),
    ensures
        j <= digit_run_end(s, j) <= s.len(),
    decreases s.len() - j,
{
    if j < s.len() && is_digit(s[j]) {
        lemma_digit_run_end_bounds(s, j + 1);
    }
}

pub proof fn lemma_digit_run_all_digits(s: Seq<char>, j: int)
    requires
        0 <= j <= s.len(),
    ensures
        forall|k: int| j <= k < digit_run_end(s, j) ==> is_digit(s[k]),
    decreases s.len() - j,
{
    if j < s.len() && is_digit(s[j]) {
        lemma_digit_run_all_digits(s, j + 1);
    }
}

pub proof fn lemma_match_at_bound(s: Seq<char>, i: int)
    requires
        0 <= i <= s.len(),
    ensures
        match match_at(s, i) {
            Some(v) => 0 <= v <= 999,
            None => true,
        },
{
    lemma_tail_match_bound(s, i);
    if i + 1 <= s.len() {
        lemma_tail_match_bound(s, i + 1);
    }
    if i + 2 <= s.len() {
        lemma_tail_match_bound(s, i + 2);
    }
    if i + 3 <= s.len() {
        lemma_tail_match_bound(s, i + 3);
    }
    if i + 4 <= s.len() {
        lemma_tail_match_bound(s, i + 4);
    }
    if i + 6 <= s.len() {
        lemma_tail_match_bound(s, i + 6);
    }
    if i + 7 <= s.len() {
        lemma_tail_match_bound(s, i + 7);
    }
}

pub proof fn lemma_order_key_bound(title: Seq<char>)
    ensures
        0 <= order_key(title) <= 999,
{
    lemma_first_match_from_bound(title, 0);
}

pub proof fn lemma_first_match_from_bound(s: Seq<char>, i: int)
    requires
        0 <= i <= s.len(),
    ensures
        0 <= first_match_from(s, i) <= 999,
    decreases s.len() - i,
{
    if i < s.len() {
        lemma_match_at_bound(s, i);
        lemma_first_match_from_bound(s, i + 1);
    }
}

/// Case-insensitive comparison of one character against a lowercase ASCII
/// letter.
fn char_ci(c: char, lower: char) -> (r: bool)
    requires
        97 <= (lower as u32) <= 122,
    ensures
        r == eq_ci(c, lower),
{
    c == lower || (c as u32) + 32 == (lower as u32)
}

fn char_is_digit(c: char) -> (r: bool)
    ensures
        r == is_digit(c),
{
    let u = c as u32;
    48 <= u && u <= 57
}

fn char_is_space(c: char) -> (r: bool)
    ensures
        r == is_space(c),
{
    c == ' ' || c == '\t' || c == '\n' || c == '\r' || c == '\u{b}' || c == '\u{c}'
}

fn char_is_terminator(c: char) -> (r: bool)
    ensures
        r == is_terminator(c),
{
    c == '話' || c == '巻' || c == '章' || c == '節' || c == '.' || c == '_' || c == '-'
        || char_is_space(c)
}

/// The capture group of the grammar, executable form.
fn tail_match_exec(s: &str, j: usize, n: usize) -> (r: Option<u32>)
    requires
        j <= s@.len(),
        n == s@.len(),
    ensures
        match r {
            Some(v) => tail_match(s@, j as int) == Some(v as int) && v <= 999,
            None => tail_match(s@, j as int) is None,
        },
{
    let mut j2 = j;
    while j2 < n && char_is_space(s.get_char(j2))
        invariant
            j <= j2 <= n,
            n == s@.len(),
            space_run_end(s@, j as int) == space_run_end(s@, j2 as int),
        decreases n - j2,
    {
        j2 = j2 + 1;
    }
    assert(space_run_end(s@, j2 as int) == j2);
    let mut e = j2;
    while e < n && char_is_digit(s.get_char(e))
        invariant
            j2 <= e <= n,
            n == s@.len(),
            digit_run_end(s@, j2 as int) == digit_run_end(s@, e as int),
        decreases n - e,
    {
        e = e + 1;
    }
    assert(digit_run_end(s@, j2 as int) == e);
    if j2 < e && e - j2 <= 3 && (e == n || char_is_terminator(s.get_char(e))) {
        proof {
            lemma_digit_run_all_digits(s@, j2 as int);
            lemma_digits_value_bound(s@, j2 as int, e as int);
            lemma_pow10_small();
        }
        let mut v: u32 = 0;
        let mut k = j2;
        while k < e
            invariant
                j2 <= k <= e,
                e <= n == s@.len(),
                e - j2 <= 3,
                forall|t: int| j2 <= t < e ==> is_digit(s@[t]),
                v as int == digits_value(s@, j2 as int, k as int),
                v <= 999,
            decreases e - k,
        {
            proof {
                lemma_digits_value_bound(s@, j2 as int, k as int);
                lemma_pow10_small();
                assert(pow10(((k - j2) + 1) as nat) <= 1000);
            }
            let c = s.get_char(k);
            v = v * 10 + ((c as u32) - 48);
            k = k + 1;
        }
        Some(v)
    } else {
        None
    }
}

/// The number captured by a grammar match that starts exactly at `i`,
/// executable form.
fn match_at_exec(s: &str, i: usize, n: usize) -> (r: Option<u32>)
    requires
        i <= s@.len(),
        n == s@.len(),
    ensures
        match r {
            Some(v) => match_at(s@, i as int) == Some(v as int) && v <= 999,
            None => match_at(s@, i as int) is None,
        },
{
    let rem = n - i;
    if rem >= 4 && char_ci(s.get_char(i), 's') && char_is_digit(s.get_char(i + 1))
        && char_is_digit(s.get_char(i + 2)) && char_ci(s.get_char(i + 3), 'e') {
        let t = tail_match_exec(s, i + 4, n);
        if t.is_some() {
            return t;
        }
    }
    if rem >= 3 && char_ci(s.get_char(i), 's') && char_is_digit(s.get_char(i + 1))
        && char_ci(s.get_char(i + 2), 'e') {
        let t = tail_match_exec(s, i + 3, n);
        if t.is_some() {
            return t;
        }
    }
    if rem >= 1 && s.get_char(i) == '第' {
        let t = tail_match_exec(s, i + 1, n);
        if t.is_some() {
            return t;
        }
    }
    if rem >= 2 && char_ci(s.get_char(i), 'e') && char_ci(s.get_char(i + 1), 'p') {
        let t = tail_match_exec(s, i + 2, n);
        if t.is_some() {
            return t;
        }
    }
    if rem >= 1 && char_ci(s.get_char(i), 'e') {
        let t = tail_match_exec(s, i + 1, n);
        if t.is_some() {
            return t;
        }
    }
    if rem >= 7 && char_ci(s.get_char(i), 'e') && char_ci(s.get_char(i + 1), 'p')
        && char_ci(s.get_char(i + 2), 'i') && char_ci(s.get_char(i + 3), 's')
        && char_ci(s.get_char(i + 4), 'o') && char_ci(s.get_char(i + 5), 'd')
        && char_ci(s.get_char(i + 6), 'e') {
        let t = tail_match_exec(s, i + 7, n);
        if t.is_some() {
            return t;
        }
    }
    if rem >= 2 && char_ci(s.get_char(i), 'c') && char_ci(s.get_char(i + 1), 'h') {
        let t = tail_match_exec(s, i + 2, n);
        if t.is_some() {
            return t;
        }
    }
    if rem >= 7 && char_ci(s.get_char(i), 'c') && char_ci(s.get_char(i + 1), 'h')
        && char_ci(s.get_char(i + 2), 'a') && char_ci(s.get_char(i + 3), 'p')
        && char_ci(s.get_char(i + 4), 't') && char_ci(s.get_char(i + 5), 'e')
        && char_ci(s.get_char(i + 6), 'r') {
        let t = tail_match_exec(s, i + 7, n);
        if t.is_some() {
            return t;
        }
    }
    if rem >= 3 && char_ci(s.get_char(i), 'v') && char_ci(s.get_char(i + 1), 'o')
        && char_ci(s.get_char(i + 2), 'l') {
        let t = tail_match_exec(s, i + 3, n);
        if t.is_some() {
            return t;
        }
    }
    if rem >= 6 && char_ci(s.get_char(i), 'v') && char_ci(s.get_char(i + 1), 'o')
        && char_ci(s.get_char(i + 2), 'l') && char_ci(s.get_char(i + 3), 'u')
        && char_ci(s.get_char(i + 4), 'm') && char_ci(s.get_char(i + 5), 'e') {
        let t = tail_match_exec(s, i + 6, n);
        if t.is_some() {
            return t;
        }
    }
    if rem >= 1 && s.get_char(i) == '#' {
        let t = tail_match_exec(s, i + 1, n);
        if t.is_some() {
            return t;
        }
    }
    tail_match_exec(s, i, n)
}

/// The ordering key of a title.
pub fn episode_number(title: &str) -> (k: u32)
    ensures
        k as int == order_key(title@),
        k <= 999,
{
    let n = title.unicode_len();
    let mut i: usize = 0;
    while i < n
        invariant
            i <= n,
            n == title@.len(),
            first_match_from(title@, 0) == first_match_from(title@, i as int),
        decreases n - i,
    {
        let m = match_at_exec(title, i, n);
        match m {
            Some(v) => {
                return v;
            },
            None => {
                i = i + 1;
            },
        }
    }
    0
}

} // verus!
