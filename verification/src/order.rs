//! Ordering machinery shared by folders and panels.
//!
//! Records are sorted by a `u64` key through a stable order: the permutation
//! that sorts the key/position pairs lexicographically.  Because positions
//! are distinct, that permutation is unique, so the contracts here pin the
//! sorted output down completely.  The module also models the update
//! timestamps: a date `"YYYY-M-D"` and a clock `"H:M"` (read after dropping
//! a trailing two-letter day-half marker) become one packed value, ordered
//! as calendars are.

use crate::heuristic::digits_value;
use crate::heuristic::is_digit;
use crate::heuristic::lemma_digits_value_bound;
use crate::heuristic::lemma_pow10_small;
use vstd::prelude::*;
use vstd::pervasive::VecAdditionalExecFns;
use vstd::relations::sorted_by;
use vstd::relations::total_ordering;
use vstd::seq_lib::lemma_sorted_unique;

verus! {

/// A clone whose result is known to equal the original.
pub trait DeepClone: Sized {
    fn deep_clone(&self) -> (r: Self)
        ensures
            r == *self,
    ;
}

/// A parsed update timestamp.
#[derive(Clone, Copy, Debug, PartialEq, Eq, Structural)]
pub struct DateTimeVal {
    pub year: u32,
    pub month: u32,
    pub day: u32,
    pub hour: u32,
    pub minute: u32,
}

impl DateTimeVal {
    /// The value an unreadable timestamp falls back to.
    pub open spec fn spec_epoch() -> DateTimeVal {
        DateTimeVal { year: 1970, month: 1, day: 1, hour: 0, minute: 0 }
    }

    pub fn epoch() -> (r: DateTimeVal)
        ensures
            r == DateTimeVal::spec_epoch(),
    {
        DateTimeVal { year: 1970, month: 1, day: 1, hour: 0, minute: 0 }
    }

    /// Field bounds that every parsed or fallback timestamp meets.
    pub open spec fn bounded(self) -> bool {
        self.year <= 9999 && 1 <= self.month <= 12 && 1 <= self.day <= 31 && self.hour <= 23
            && self.minute <= 59
    }
}

pub open spec fn is_leap_year(y: int) -> bool {
    y % 4 == 0 && (y % 100 != 0 || y % 400 == 0)
}

pub open spec fn days_in_month(y: int, m: int) -> int {
    if m == 2 {
        if is_leap_year(y) {
            29
        } else {
            28
        }
    } else if m == 4 || m == 6 || m == 9 || m == 11 {
        30
    } else {
        31
    }
}

/// A calendar date `YYYY-M-D`: a four-digit year, then a one- or two-digit
/// month and day, each preceded by a dash, filling the whole string and
/// naming a real day of the calendar.
pub open spec fn spec_parse_date(s: Seq<char>) -> Option<(int, int, int)> {
    let n = s.len() as int;
    if n < 8 {
        None
    } else if !(is_digit(s[0]) && is_digit(s[1]) && is_digit(s[2]) && is_digit(s[3]) && s[4]
        == '-' && is_digit(s[5])) {
        None
    } else {
        let y = digits_value(s, 0, 4);
        let di = if is_digit(s[6]) {
            7
        } else {
            6
        };
        let m = digits_value(s, 5, di);
        if di >= n || s[di] != '-' {
            None
        } else if di + 1 >= n || !is_digit(s[di + 1]) {
            None
        } else {
            let d = if n == di + 2 {
                Some(digits_value(s, di + 1, n))
            } else if n == di + 3 && is_digit(s[di + 2]) {
                Some(digits_value(s, di + 1, n))
            } else {
                None
            };
            match d {
                Some(d) => if 1 <= m <= 12 && 1 <= d <= days_in_month(y, m) {
                    Some((y, m, d))
                } else {
                    None
                },
                None => None,
            }
        }
    }
}

/// A clock reading `H:M`: a one- or two-digit hour and minute around a
/// colon, filling the whole string, below 24 hours and 60 minutes.
pub open spec fn spec_parse_time(s: Seq<char>) -> Option<(int, int)> {
    let n = s.len() as int;
    if n < 3 || !is_digit(s[0]) {
        None
    } else {
        let ci = if 1 < n && is_digit(s[1]) {
            2
        } else {
            1
        };
        let h = digits_value(s, 0, ci);
        if ci >= n || s[ci] != ':' {
            None
        } else if ci + 1 >= n || !is_digit(s[ci + 1]) {
            None
        } else {
            let m = if n == ci + 2 {
                Some(digits_value(s, ci + 1, n))
            } else if n == ci + 3 && is_digit(s[ci + 2]) {
                Some(digits_value(s, ci + 1, n))
            } else {
                None
            };
            match m {
                Some(m) => if h <= 23 && m <= 59 {
                    Some((h, m))
                } else {
                    None
                },
                None => None,
            }
        }
    }
}

/// The timestamp a record's date and time strings stand for, if both
/// parse.  The time string carries a trailing two-letter day-half marker,
/// which is dropped before the clock is read.
pub open spec fn spec_try_datetime(date: Seq<char>, time: Seq<char>) -> Option<DateTimeVal> {
    match spec_parse_date(date) {
        Some((y, m, d)) => if time.len() >= 2 {
            match spec_parse_time(time.subrange(0, time.len() - 2)) {
                Some((h, mi)) => Some(
                    DateTimeVal {
                        year: y as u32,
                        month: m as u32,
                        day: d as u32,
                        hour: h as u32,
                        minute: mi as u32,
                    },
                ),
                None => None,
            }
        } else {
            None
        },
        None => None,
    }
}

/// The timestamp a record's date and time strings stand for; what does not
/// parse falls back to the epoch.
pub open spec fn spec_datetime(date: Seq<char>, time: Seq<char>) -> DateTimeVal {
    match spec_try_datetime(date, time) {
        Some(dt) => dt,
        None => DateTimeVal::spec_epoch(),
    }
}

/// Timestamps packed into one integer, ordered as calendars are.
pub open spec fn spec_pack_datetime(dt: DateTimeVal) -> int {
    ((((dt.year * 13 + dt.month) * 32 + dt.day) * 24 + dt.hour) * 60 + dt.minute) as int
}

/// Digits `s[lo..hi]` read as a number.
pub fn read_digits(s: &str, lo: usize, hi: usize) -> (v: u32)
    requires
        lo <= hi <= s@.len(),
        hi - lo <= 4,
        forall|k: int| lo <= k < hi ==> is_digit(s@[k]),
    ensures
        v as int == digits_value(s@, lo as int, hi as int),
        v <= 9999,
{
    proof {
        lemma_digits_value_bound(s@, lo as int, hi as int);
        lemma_pow10_small();
    }
    let mut v: u32 = 0;
    let mut k = lo;
    while k < hi
        invariant
            lo <= k <= hi <= s@.len(),
            hi - lo <= 4,
            forall|t: int| lo <= t < hi ==> is_digit(s@[t]),
            v as int == digits_value(s@, lo as int, k as int),
            v <= 9999,
        decreases hi - k,
    {
        proof {
            lemma_digits_value_bound(s@, lo as int, k as int);
            lemma_digits_value_bound(s@, lo as int, k + 1 as int);
            lemma_pow10_small();
            assert(digits_value(s@, lo as int, k + 1 as int) == digits_value(
                s@,
                lo as int,
                k as int,
            ) * 10 + ((s@[k as int] as u32) - 48));
        }
        let c = s.get_char(k);
        v = v * 10 + ((c as u32) - 48);
        k = k + 1;
    }
    v
}

fn is_digit_at(s: &str, k: usize) -> (r: bool)
    requires
        k < s@.len(),
    ensures
        r == is_digit(s@[k as int]),
{
    let u = s.get_char(k) as u32;
    48 <= u && u <= 57
}

/// Reads a calendar date, executable form of [`spec_parse_date`].
pub fn parse_date(s: &str) -> (r: Option<(u32, u32, u32)>)
    ensures
        match r {
            Some(t) => spec_parse_date(s@) == Some((t.0 as int, t.1 as int, t.2 as int)),
            None => spec_parse_date(s@) is None,
        },
{
    let n = s.unicode_len();
    if n < 8 {
        return None;
    }
    if !(is_digit_at(s, 0) && is_digit_at(s, 1) && is_digit_at(s, 2) && is_digit_at(s, 3)
        && s.get_char(4) == '-' && is_digit_at(s, 5)) {
        return None;
    }
    let y = read_digits(s, 0, 4);
    let di: usize = if is_digit_at(s, 6) {
        7
    } else {
        6
    };
    let m = read_digits(s, 5, di);
    if di >= n || s.get_char(di) != '-' {
        return None;
    }
    if di + 1 >= n || !is_digit_at(s, di + 1) {
        return None;
    }
    let d: u32;
    if n == di + 2 {
        d = read_digits(s, di + 1, n);
    } else if n == di + 3 && is_digit_at(s, di + 2) {
        d = read_digits(s, di + 1, n);
    } else {
        return None;
    }
    let dim = days_in_month_exec(y, m);
    if 1 <= m && m <= 12 && 1 <= d && d <= dim {
        Some((y, m, d))
    } else {
        None
    }
}

pub fn days_in_month_exec(y: u32, m: u32) -> (r: u32)
    ensures
        r as int == days_in_month(y as int, m as int),
{
    if m == 2 {
        if y % 4 == 0 && (y % 100 != 0 || y % 400 == 0) {
            29
        } else {
            28
        }
    } else if m == 4 || m == 6 || m == 9 || m == 11 {
        30
    } else {
        31
    }
}

/// Reads a clock, executable form of [`spec_parse_time`].
pub fn parse_time(s: &str) -> (r: Option<(u32, u32)>)
    ensures
        match r {
            Some(t) => spec_parse_time(s@) == Some((t.0 as int, t.1 as int)),
            None => spec_parse_time(s@) is None,
        },
{
    let n = s.unicode_len();
    if n < 3 || !is_digit_at(s, 0) {
        return None;
    }
    let ci: usize = if is_digit_at(s, 1) {
        2
    } else {
        1
    };
    let h = read_digits(s, 0, ci);
    if ci >= n || s.get_char(ci) != ':' {
        return None;
    }
    if ci + 1 >= n || !is_digit_at(s, ci + 1) {
        return None;
    }
    let m: u32;
    if n == ci + 2 {
        m = read_digits(s, ci + 1, n);
    } else if n == ci + 3 && is_digit_at(s, ci + 2) {
        m = read_digits(s, ci + 1, n);
    } else {
        return None;
    }
    if h <= 23 && m <= 59 {
        Some((h, m))
    } else {
        None
    }
}

/// The timestamp of a record, executable form of [`spec_try_datetime`].
pub fn try_datetime_of(date: &str, time: &str) -> (r: Option<DateTimeVal>)
    ensures
        r == spec_try_datetime(date@, time@),
        r matches Some(dt) ==> dt.bounded(),
{
    let pd = parse_date(date);
    match pd {
        Some((y, m, d)) => {
            let tn = time.unicode_len();
            if tn >= 2 {
                let trimmed = time.substring_char(0, tn - 2);
                let pt = parse_time(trimmed);
                match pt {
                    Some((h, mi)) => {
                        proof {
                            lemma_parse_date_bounds(date@);
                            lemma_parse_time_bounds(trimmed@);
                        }
                        Some(DateTimeVal { year: y, month: m, day: d, hour: h, minute: mi })
                    },
                    None => None,
                }
            } else {
                None
            }
        },
        None => None,
    }
}

/// The timestamp of a record, executable form of [`spec_datetime`].
pub fn datetime_of(date: &str, time: &str) -> (r: DateTimeVal)
    ensures
        r == spec_datetime(date@, time@),
        r.bounded(),
{
    match try_datetime_of(date, time) {
        Some(dt) => dt,
        None => DateTimeVal::epoch(),
    }
}

pub proof fn lemma_parse_date_bounds(s: Seq<char>)
    ensures
        match spec_parse_date(s) {
            Some((y, m, d)) => 0 <= y <= 9999 && 1 <= m <= 12 && 1 <= d <= 31,
            None => true,
        },
{
    if spec_parse_date(s) is Some {
        lemma_digits_value_bound(s, 0, 4);
        lemma_pow10_small();
    }
}

pub proof fn lemma_parse_time_bounds(s: Seq<char>)
    ensures
        match spec_parse_time(s) {
            Some((h, m)) => 0 <= h <= 23 && 0 <= m <= 59,
            None => true,
        },
{
    let n = s.len() as int;
    if spec_parse_time(s) is Some {
        let ci: int = if 1 < n && is_digit(s[1]) {
            2
        } else {
            1
        };
        lemma_digits_value_bound(s, 0, ci);
        lemma_digits_value_bound(s, ci + 1, n);
    }
}

/// The lexicographic order on key/position pairs.
pub open spec fn pair_le(a: (u64, usize), b: (u64, usize)) -> bool {
    a.0 < b.0 || (a.0 == b.0 && a.1 <= b.1)
}

pub open spec fn pair_leq() -> spec_fn((u64, usize), (u64, usize)) -> bool {
    |a: (u64, usize), b: (u64, usize)| pair_le(a, b)
}

pub proof fn lemma_pair_le_total()
    ensures
        total_ordering(pair_leq()),
{
    let leq = pair_leq();
    assert forall|x: (u64, usize), y: (u64, usize)| #[trigger] leq(x, y) && #[trigger] leq(
        y,
        x,
    ) implies x == y by {
        assert(x.0 == y.0 && x.1 == y.1);
        assert(x == (x.0, x.1));
        assert(y == (y.0, y.1));
    }
}

/// The key/position pairs of a key sequence.
pub open spec fn spec_pairs_of(keys: Seq<u64>) -> Seq<(u64, usize)> {
    Seq::new(keys.len(), |i: int| (keys[i], i as usize))
}

/// The unique permutation that sorts `keys` and keeps positions with equal
/// keys in their original order.
pub open spec fn spec_stable_order(keys: Seq<u64>) -> Seq<usize> {
    spec_pairs_of(keys).sort_by(pair_leq()).map_values(|p: (u64, usize)| p.1)
}

/// Whether the pair before position `j` must move past the pair at `j`.
fn pair_out_of_order(v: &Vec<(u64, usize)>, j: usize) -> (r: bool)
    requires
        1 <= j < v@.len(),
    ensures
        r == !pair_le(v@[j - 1], v@[j as int]),
{
    let p = v[j - 1];
    let q = v[j];
    p.0 > q.0 || (p.0 == q.0 && p.1 > q.1)
}

/// Sorts key/position pairs lexicographically by insertion.
fn sort_pairs(v: &mut Vec<(u64, usize)>)
    ensures
        final(v)@.to_multiset() == old(v)@.to_multiset(),
        sorted_by(final(v)@, pair_leq()),
        final(v)@.len() == old(v)@.len(),
{
    let n = v.len();
    if n <= 1 {
        return ;
    }
    let mut i: usize = 1;
    while i < n
        invariant
            1 <= i <= n,
            v@.len() == n == old(v)@.len(),
            v@.to_multiset() == old(v)@.to_multiset(),
            forall|a: int, b: int| 0 <= a < b < i ==> pair_le(v@[a], v@[b]),
        decreases n - i,
    {
        let mut j = i;
        while j > 0 && pair_out_of_order(v, j)
            invariant
                0 <= j <= i < n,
                v@.len() == n,
                v@.to_multiset() == old(v)@.to_multiset(),
                forall|a: int, b: int| 0 <= a < b <= i && b != j ==> pair_le(v@[a], v@[b]),
                forall|a: int| j < a <= i ==> !pair_le(v@[a], v@[j as int]),
            decreases j,
        {
            let p = v[j - 1];
            let q = v[j];
            let ghost pre = v@;
            v.set(j - 1, q);
            v.set(j, p);
            proof {
                broadcast use vstd::seq_lib::to_multiset_update;
                broadcast use vstd::seq_lib::group_to_multiset_ensures;
                broadcast use vstd::multiset::group_multiset_axioms;

                let s1 = pre.update(j - 1, q);
                let s2 = s1.update(j as int, p);
                assert(s1[j as int] == pre[j as int]);
                assert(v@ == s2);
                assert(pre.contains(p) && pre.contains(q));
                assert(pre.to_multiset().count(p) > 0 && pre.to_multiset().count(q) > 0);
                assert(s1.to_multiset() == pre.to_multiset().insert(q).remove(p));
                assert(s2.to_multiset() == s1.to_multiset().insert(p).remove(q));
                assert(v@.to_multiset() =~= pre.to_multiset());
            }
            j = j - 1;
        }
        proof {
            assert forall|a: int, b: int| 0 <= a < b <= i implies pair_le(v@[a], v@[b]) by {
                if b == j {
                    if j > 0 {
                        assert(pair_le(v@[j - 1], v@[j as int]));
                        if a < j - 1 {
                            assert(pair_le(v@[a], v@[j - 1]));
                        }
                    }
                }
            }
        }
        i = i + 1;
    }
    proof {
        assert forall|a: int, b: int| 0 <= a < b < v@.len() implies pair_leq()(v@[a], v@[b]) by {
            assert(pair_le(v@[a], v@[b]));
        }
    }
}

/// Computes the stable order of `keys`.
pub fn stable_order(keys: &Vec<u64>) -> (order: Vec<usize>)
    ensures
        order@ == spec_stable_order(keys@),
{
    let n = keys.len();
    let mut pairs: Vec<(u64, usize)> = Vec::new();
    for i in 0..n
        invariant
            n == keys@.len(),
            pairs@.len() == i,
            forall|k: int| 0 <= k < i ==> pairs@[k] == (keys@[k], k as usize),
    {
        pairs.push((keys[i], i));
    }
    proof {
        assert(pairs@ =~= spec_pairs_of(keys@));
    }
    let ghost orig = pairs@;
    sort_pairs(&mut pairs);
    proof {
        lemma_pair_le_total();
        orig.lemma_sort_by_ensures(pair_leq());
        lemma_sorted_unique(pairs@, orig.sort_by(pair_leq()), pair_leq());
        assert(pairs@ =~= orig.sort_by(pair_leq()));
    }
    let mut order: Vec<usize> = Vec::new();
    let m = pairs.len();
    for k in 0..m
        invariant
            m == pairs@.len(),
            order@.len() == k,
            forall|t: int| 0 <= t < k ==> order@[t] == pairs@[t].1,
    {
        order.push(pairs[k].1);
    }
    proof {
        assert(order@ =~= spec_stable_order(keys@));
    }
    order
}

/// What the stable order guarantees: a permutation of the positions,
/// ordered by key, with equal keys kept in position order.
pub proof fn lemma_stable_order_props(keys: Seq<u64>)
    requires
        keys.len() <= usize::MAX,
    ensures
        spec_stable_order(keys).len() == keys.len(),
        forall|a: int| 0 <= a < keys.len() ==> (#[trigger] spec_stable_order(keys)[a]) < keys.len(),
        forall|a: int, b: int|
            0 <= a < b < keys.len() ==> keys[#[trigger] spec_stable_order(keys)[a] as int]
                <= keys[#[trigger] spec_stable_order(keys)[b] as int],
        forall|a: int, b: int|
            0 <= a < b < keys.len() && keys[#[trigger] spec_stable_order(keys)[a] as int]
                == keys[#[trigger] spec_stable_order(keys)[b] as int]
                ==> spec_stable_order(keys)[a] < spec_stable_order(keys)[b],
        forall|a: int, b: int|
            0 <= a < b < keys.len() ==> spec_stable_order(keys)[a] != spec_stable_order(keys)[b],
        forall|i: int|
            0 <= i < keys.len() ==> spec_stable_order(keys).contains(#[trigger] (i as usize)),
{
    broadcast use vstd::seq_lib::group_to_multiset_ensures;

    let pairs = spec_pairs_of(keys);
    let sorted = pairs.sort_by(pair_leq());
    let ord = spec_stable_order(keys);
    lemma_pair_le_total();
    pairs.lemma_sort_by_ensures(pair_leq());
    assert(pairs.to_multiset().len() == pairs.len());
    assert(sorted.to_multiset().len() == sorted.len());
    assert(sorted.len() == pairs.len());
    assert(ord.len() == keys.len());
    assert forall|a: int| 0 <= a < keys.len() implies (#[trigger] sorted[a]).0 == keys[sorted[a].1 as int]
        && sorted[a].1 < keys.len() by {
        assert(sorted.contains(sorted[a]));
        assert(pairs.contains(sorted[a]));
        let w = choose|w: int| 0 <= w < pairs.len() && pairs[w] == sorted[a];
        assert(pairs[w] == (keys[w], w as usize));
    }
    assert forall|a: int| 0 <= a < keys.len() implies (#[trigger] ord[a]) < keys.len() by {
        assert(ord[a] == sorted[a].1);
    }
    assert forall|a: int, b: int| 0 <= a < b < keys.len() implies sorted[a] != sorted[b] by {
        if sorted[a] == sorted[b] {
            let x = sorted[a];
            assert(pairs.no_duplicates()) by {
                assert forall|p: int, q: int|
                    0 <= p < pairs.len() && 0 <= q < pairs.len() && p != q implies pairs[p]
                    != pairs[q] by {
                    assert(pairs[p].1 == p as usize);
                    assert(pairs[q].1 == q as usize);
                }
            }
            pairs.lemma_multiset_has_no_duplicates();
            assert(pairs.to_multiset().count(x) <= 1);
            assert(sorted.remove(a).to_multiset() =~= sorted.to_multiset().remove(x));
            assert(sorted.remove(a).len() == sorted.len() - 1);
            assert(0 <= b - 1 < sorted.remove(a).len());
            assert(sorted.remove(a)[b - 1] == x);
            assert(sorted.remove(a).to_multiset().contains(x));
            assert(sorted.to_multiset().count(x) >= 2);
        }
    }
    assert forall|a: int, b: int| 0 <= a < b < keys.len() implies keys[ord[a] as int]
        <= keys[ord[b] as int] && (keys[ord[a] as int] == keys[ord[b] as int] ==> ord[a] < ord[b])
        && ord[a] != ord[b] by {
        assert(pair_leq()(sorted[a], sorted[b]));
        assert(pair_le(sorted[a], sorted[b]));
        assert(sorted[a].0 == keys[sorted[a].1 as int]);
        assert(sorted[b].0 == keys[sorted[b].1 as int]);
        assert(sorted[a] != sorted[b]);
        assert(ord[a] == sorted[a].1 && ord[b] == sorted[b].1);
        if sorted[a].1 == sorted[b].1 && sorted[a].0 == sorted[b].0 {
            assert(sorted[a] == (sorted[a].0, sorted[a].1));
            assert(sorted[b] == (sorted[b].0, sorted[b].1));
        }
    }
    assert forall|i: int| 0 <= i < keys.len() implies ord.contains(#[trigger] (i as usize)) by {
        assert(pairs[i] == (keys[i], i as usize));
        assert(pairs.to_multiset().contains(pairs[i]));
        assert(sorted.to_multiset().contains(pairs[i]));
        assert(sorted.contains(pairs[i]));
        let w = choose|w: int| 0 <= w < sorted.len() && sorted[w] == pairs[i];
        assert(ord[w] == i as usize);
    }
}

/// Rebuilds a record list in the given order.
pub fn apply_order<T: DeepClone>(v: &Vec<T>, order: &Vec<usize>) -> (r: Vec<T>)
    requires
        forall|a: int| 0 <= a < order@.len() ==> (#[trigger] order@[a]) < v@.len(),
    ensures
        r@.len() == order@.len(),
        forall|a: int| 0 <= a < order@.len() ==> #[trigger] r@[a] == v@[order@[a] as int],
{
    let mut r: Vec<T> = Vec::new();
    let m = order.len();
    for k in 0..m
        invariant
            m == order@.len(),
            forall|a: int| 0 <= a < m ==> (#[trigger] order@[a]) < v@.len(),
            r@.len() == k,
            forall|a: int| 0 <= a < k ==> #[trigger] r@[a] == v@[order@[a] as int],
    {
        let idx = order[k];
        r.push(v[idx].deep_clone());
    }
    r
}

} // verus!
