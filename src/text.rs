//! Character-level helpers: whitespace, trimming, searching and number reading.
use vstd::prelude::*;

verus! {

/// Relies on `String::push`: the character is appended at the end.
pub assume_specification[ String::push ](s: &mut String, ch: char)
    ensures
        final(s)@ == old(s)@.push(ch),
;

/// Unicode `White_Space`, the property that `char::is_whitespace` follows.
pub open spec fn is_ws(c: char) -> bool {
    let n = c as u32;
    (0x9 <= n && n <= 0xd) || n == 0x20 || n == 0x85 || n == 0xa0 || n == 0x1680 || (0x2000
        <= n && n <= 0x200a) || n == 0x2028 || n == 0x2029 || n == 0x202f || n == 0x205f || n
        == 0x3000
}

pub fn is_whitespace(c: char) -> (r: bool)
    ensures
        r == is_ws(c),
{
    let n = c as u32;
    (0x9 <= n && n <= 0xd) || n == 0x20 || n == 0x85 || n == 0xa0 || n == 0x1680 || (0x2000
        <= n && n <= 0x200a) || n == 0x2028 || n == 0x2029 || n == 0x202f || n == 0x205f || n
        == 0x3000
}

/// The characters of `s`, in order.
pub fn chars_of(s: &str) -> (r: Vec<char>)
    ensures
        r@ == s@,
{
    let mut r: Vec<char> = Vec::new();
    for c in it: s.chars()
        invariant
            r@ == it.seq().take(it.index() as int),
            it.seq() == s@,
    {
        r.push(c);
    }
    r
}

/// The characters `v[lo..hi]` as a string.
pub fn string_of(v: &Vec<char>, lo: usize, hi: usize) -> (r: String)
    requires
        lo <= hi <= v@.len(),
    ensures
        r@ == v@.subrange(lo as int, hi as int),
{
    let mut r = String::new();
    let mut i: usize = lo;
    while i < hi
        invariant
            lo <= i <= hi <= v@.len(),
            r@ == v@.subrange(lo as int, i as int),
        decreases hi - i,
    {
        r.push(v[i]);
        assert(v@.subrange(lo as int, i + 1) =~= v@.subrange(lo as int, i as int).push(v@[i as int]));
        i = i + 1;
    }
    r
}

/// Length of `s` once trailing whitespace is dropped.
pub open spec fn trim_end_len(s: Seq<char>) -> nat
    decreases s.len(),
{
    if s.len() > 0 && is_ws(s.last()) {
        trim_end_len(s.drop_last())
    } else {
        s.len()
    }
}

/// Number of leading whitespace characters of `s`.
pub open spec fn trim_start_len(s: Seq<char>) -> nat
    decreases s.len(),
{
    if s.len() > 0 && is_ws(s[0]) {
        1 + trim_start_len(s.drop_first())
    } else {
        0
    }
}

/// `s` without trailing whitespace.
pub open spec fn trim_end(s: Seq<char>) -> Seq<char> {
    s.take(trim_end_len(s) as int)
}

/// `s` without leading or trailing whitespace.
pub open spec fn trim(s: Seq<char>) -> Seq<char> {
    let t = trim_end(s);
    t.skip(trim_start_len(t) as int)
}

/// Position just past the last non-whitespace character of `v[lo..hi]`.
pub fn trim_end_pos(v: &Vec<char>, lo: usize, hi: usize) -> (r: usize)
    requires
        lo <= hi <= v@.len(),
    ensures
        lo <= r <= hi,
        r - lo == trim_end_len(v@.subrange(lo as int, hi as int)),
{
    let mut j: usize = hi;
    while j > lo && is_whitespace(v[j - 1])
        invariant
            lo <= j <= hi <= v@.len(),
            trim_end_len(v@.subrange(lo as int, hi as int)) == trim_end_len(
                v@.subrange(lo as int, j as int),
            ),
        decreases j,
    {
        assert(v@.subrange(lo as int, j as int).drop_last() =~= v@.subrange(lo as int, j - 1));
        j = j - 1;
    }
    proof {
        lemma_trim_end_len_stops(v@.subrange(lo as int, j as int));
    }
    j
}

proof fn lemma_trim_end_len_stops(s: Seq<char>)
    requires
        s.len() == 0 || !is_ws(s.last()),
    ensures
        trim_end_len(s) == s.len(),
{
}

/// Position of the first non-whitespace character of `v[lo..hi]`, or `hi`.
pub fn trim_start_pos(v: &Vec<char>, lo: usize, hi: usize) -> (r: usize)
    requires
        lo <= hi <= v@.len(),
    ensures
        lo <= r <= hi,
        r - lo == trim_start_len(v@.subrange(lo as int, hi as int)),
{
    let mut j: usize = lo;
    while j < hi && is_whitespace(v[j])
        invariant
            lo <= j <= hi <= v@.len(),
            trim_start_len(v@.subrange(lo as int, hi as int)) == (j - lo) + trim_start_len(
                v@.subrange(j as int, hi as int),
            ),
        decreases hi - j,
    {
        assert(v@.subrange(j as int, hi as int).drop_first() =~= v@.subrange(j + 1, hi as int));
        j = j + 1;
    }
    j
}

/// `s` without trailing whitespace.
pub fn trimmed_end(s: &str) -> (r: String)
    ensures
        r@ == trim_end(s@),
{
    let v = chars_of(s);
    let e = trim_end_pos(&v, 0, v.len());
    assert(v@.subrange(0, v@.len() as int) =~= v@);
    string_of(&v, 0, e)
}

/// `s` without leading or trailing whitespace.
pub fn trimmed(s: &str) -> (r: String)
    ensures
        r@ == trim(s@),
{
    let v = chars_of(s);
    let e = trim_end_pos(&v, 0, v.len());
    assert(v@.subrange(0, v@.len() as int) =~= v@);
    let b = trim_start_pos(&v, 0, e);
    assert(v@.subrange(0, e as int) =~= trim_end(s@));
    let r = string_of(&v, b, e);
    assert(r@ =~= trim(s@));
    r
}

/// `t` occurs in `s` starting at `p`.
pub open spec fn occurs_at(s: Seq<char>, t: Seq<char>, p: int) -> bool {
    0 <= p && p + t.len() <= s.len() && s.subrange(p, p + t.len()) == t
}

/// `t` occurs in `s` somewhere.
pub open spec fn occurs_in(s: Seq<char>, t: Seq<char>) -> bool {
    exists|p: int| occurs_at(s, t, p)
}

fn matches_at(v: &Vec<char>, t: &Vec<char>, p: usize) -> (r: bool)
    requires
        p + t@.len() <= v@.len(),
    ensures
        r == occurs_at(v@, t@, p as int),
{
    let n = v.len();
    let mut k: usize = 0;
    while k < t.len()
        invariant
            n == v@.len(),
            p + t@.len() <= v@.len(),
            k <= t@.len(),
            forall|m: int| 0 <= m < k ==> v@[p + m] == t@[m],
        decreases t@.len() - k,
    {
        if v[p + k] != t[k] {
            assert(v@.subrange(p as int, p + t@.len())[k as int] != t@[k as int]);
            return false;
        }
        k = k + 1;
    }
    assert(v@.subrange(p as int, p + t@.len()) =~= t@);
    true
}

/// The last position at which `t` occurs in `v`.
pub fn find_last(v: &Vec<char>, t: &Vec<char>) -> (r: Option<usize>)
    ensures
        r matches Some(p) ==> occurs_at(v@, t@, p as int) && forall|q: int|
            p < q ==> !occurs_at(v@, t@, q),
        r is None ==> !occurs_in(v@, t@),
{
    if t.len() > v.len() {
        return None;
    }
    let mut p: usize = v.len() - t.len();
    loop
        invariant
            t@.len() <= v@.len(),
            p <= v@.len() - t@.len(),
            forall|q: int| p < q ==> !occurs_at(v@, t@, q),
        decreases p,
    {
        if matches_at(v, t, p) {
            return Some(p);
        }
        if p == 0 {
            return None;
        }
        p = p - 1;
    }
}

/// Whether `t` occurs in `s`.
pub fn contains_text(s: &str, t: &str) -> (r: bool)
    ensures
        r == occurs_in(s@, t@),
{
    let v = chars_of(s);
    let w = chars_of(t);
    find_last(&v, &w).is_some()
}

pub open spec fn is_digit(c: char) -> bool {
    48 <= c as u32 && c as u32 <= 57
}

pub open spec fn all_digits(s: Seq<char>) -> bool {
    forall|i: int| 0 <= i < s.len() ==> is_digit(#[trigger] s[i])
}

/// The number that the decimal digits `s` spell.
pub open spec fn digits_value(s: Seq<char>) -> int
    decreases s.len(),
{
    if s.len() == 0 {
        0
    } else {
        digits_value(s.drop_last()) * 10 + (s.last() as u32 - 48)
    }
}

/// The integer that `s` spells: an optional sign, then one or more decimal digits.
pub open spec fn int_text_value(s: Seq<char>) -> Option<int> {
    if s.len() > 0 && (s[0] == '-' || s[0] == '+') {
        let d = s.drop_first();
        if d.len() > 0 && all_digits(d) {
            Some(
                if s[0] == '-' {
                    -digits_value(d)
                } else {
                    digits_value(d)
                },
            )
        } else {
            None
        }
    } else if s.len() > 0 && all_digits(s) {
        Some(digits_value(s))
    } else {
        None
    }
}

/// `s` read as an `i32`, or -1 where it is no integer of that range.
pub open spec fn i32_or_minus_one(s: Seq<char>) -> i32 {
    match int_text_value(s) {
        Some(v) => if i32::MIN <= v <= i32::MAX {
            v as i32
        } else {
            -1i32
        },
        None => -1i32,
    }
}

proof fn lemma_digits_value_nonneg(s: Seq<char>)
    requires
        all_digits(s),
    ensures
        digits_value(s) >= 0,
    decreases s.len(),
{
    if s.len() > 0 {
        assert(all_digits(s.drop_last()));
        lemma_digits_value_nonneg(s.drop_last());
        assert(is_digit(s[s.len() - 1]));
    }
}

fn is_digit_char(c: char) -> (r: bool)
    ensures
        r == is_digit(c),
{
    48 <= c as u32 && c as u32 <= 57
}

/// Reads the digits `v[lo..hi]`; `None` where their value exceeds 2^31.
fn digits_upto(v: &Vec<char>, lo: usize, hi: usize) -> (r: Option<i64>)
    requires
        lo <= hi <= v@.len(),
        all_digits(v@.subrange(lo as int, hi as int)),
    ensures
        r matches Some(x) ==> x == digits_value(v@.subrange(lo as int, hi as int)) && 0 <= x
            <= 2147483648,
        r is None ==> digits_value(v@.subrange(lo as int, hi as int)) > 2147483648,
{
    let mut acc: i64 = 0;
    let mut i: usize = lo;
    while i < hi
        invariant
            lo <= i <= hi <= v@.len(),
            all_digits(v@.subrange(lo as int, hi as int)),
            acc == digits_value(v@.subrange(lo as int, i as int)),
            0 <= acc <= 2147483648,
        decreases hi - i,
    {
        let c = v[i];
        assert(v@.subrange(lo as int, hi as int)[i - lo] == c);
        let d = (c as u32 - 48) as i64;
        let ghost pre = v@.subrange(lo as int, i as int);
        let ghost cur = v@.subrange(lo as int, i + 1);
        assert(cur.drop_last() =~= pre);
        acc = acc * 10 + d;
        i = i + 1;
        if acc > 2147483648 {
            proof {
                assert(v@.subrange(lo as int, hi as int).take(i - lo) =~= v@.subrange(
                    lo as int,
                    i as int,
                ));
                lemma_digits_grow(v@.subrange(lo as int, hi as int), i - lo);
            }
            return None;
        }
    }
    Some(acc)
}

/// A longer run of digits spells at least as much as its prefix.
proof fn lemma_digits_grow(s: Seq<char>, k: int)
    requires
        0 <= k <= s.len(),
        all_digits(s),
    ensures
        digits_value(s) >= digits_value(s.take(k)),
    decreases s.len() - k,
{
    if k < s.len() {
        lemma_digits_grow(s, k + 1);
        let t = s.take(k + 1);
        assert(t.drop_last() =~= s.take(k));
        assert(all_digits(s.take(k)));
        lemma_digits_value_nonneg(s.take(k));
        assert(is_digit(s[k]));
    } else {
        assert(s.take(k) =~= s);
    }
}

/// `v[lo..hi]` read as an `i32`, or -1 where it is no integer of that range.
pub fn parse_i32_or_minus_one(v: &Vec<char>, lo: usize, hi: usize) -> (r: i32)
    requires
        lo <= hi <= v@.len(),
    ensures
        r == i32_or_minus_one(v@.subrange(lo as int, hi as int)),
{
    let ghost s = v@.subrange(lo as int, hi as int);
    if lo == hi {
        return -1;
    }
    let negative = v[lo] == '-';
    let start: usize = if v[lo] == '-' || v[lo] == '+' {
        lo + 1
    } else {
        lo
    };
    if start == hi {
        return -1;
    }
    let mut i: usize = start;
    while i < hi
        invariant
            lo <= start <= i <= hi <= v@.len(),
            s == v@.subrange(lo as int, hi as int),
            start == lo || start == lo + 1,
            start == lo + 1 <==> (v@[lo as int] == '-' || v@[lo as int] == '+'),
            negative == (v@[lo as int] == '-'),
            forall|j: int| start <= j < i ==> is_digit(#[trigger] v@[j]),
        decreases hi - i,
    {
        if !is_digit_char(v[i]) {
            proof {
                if start == lo {
                    assert(!is_digit(s[i - lo]));
                } else {
                    assert(!is_digit(s.drop_first()[i - lo - 1]));
                }
            }
            return -1;
        }
        i = i + 1;
    }
    let ghost d = v@.subrange(start as int, hi as int);
    assert(all_digits(d));
    proof {
        if start != lo {
            assert(s.drop_first() =~= d);
        } else {
            assert(s =~= d);
        }
    }
    match digits_upto(v, start, hi) {
        Some(x) => {
            if negative {
                (-x) as i32
            } else if x <= 2147483647 {
                x as i32
            } else {
                -1
            }
        },
        None => -1,
    }
}

/// Whether `c` occurs in `s`.
pub fn has_char(s: &str, c: char) -> (r: bool)
    ensures
        r == s@.contains(c),
{
    let v = chars_of(s);
    let mut i: usize = 0;
    while i < v.len()
        invariant
            i <= v@.len(),
            v@ == s@,
            forall|j: int| 0 <= j < i ==> v@[j] != c,
        decreases v@.len() - i,
    {
        if v[i] == c {
            return true;
        }
        i = i + 1;
    }
    false
}

} // verus!
