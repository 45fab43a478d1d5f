//! Character-level text utilities shared by the normalizer, the resolver and
//! the resume format: searching, trimming, ASCII case folding, substring
//! tests, decimal parsing and printing, splitting and lexicographic order.
//! Specifications speak of strings through their `Seq<char>` views.

use vstd::prelude::*;
use vstd::string::*;

verus! {

/// First index `i` in `[from, s.len())` with `s[i] == c`, or `s.len()` if
/// there is none.
pub open spec fn spec_find(s: Seq<char>, c: char, from: int) -> int
    decreases s.len() - from when 0 <= from <= s.len()
{
    if from >= s.len() {
        s.len() as int
    } else if s[from] == c {
        from
    } else {
        spec_find(s, c, from + 1)
    }
}

pub proof fn lemma_find_bounds(s: Seq<char>, c: char, from: int)
    requires
        0 <= from <= s.len(),
    ensures
        from <= spec_find(s, c, from) <= s.len(),
        spec_find(s, c, from) < s.len() ==> s[spec_find(s, c, from)] == c,
        forall|k: int| from <= k < spec_find(s, c, from) ==> s[k] != c,
    decreases s.len() - from,
{
    if from < s.len() && s[from] != c {
        lemma_find_bounds(s, c, from + 1);
    }
}

/// Linear scan for `c`, starting at `from`.
pub fn find_char_from(s: &str, from: usize, c: char) -> (r: usize)
    requires
        from <= s@.len(),
    ensures
        r == spec_find(s@, c, from as int),
{
    let n = s.unicode_len();
    let mut i = from;
    while i < n
        invariant
            from <= i <= n,
            n == s@.len(),
            spec_find(s@, c, from as int) == spec_find(s@, c, i as int),
        decreases n - i,
    {
        if s.get_char(i) == c {
            return i;
        }
        i = i + 1;
    }
    i
}

/// The whitespace characters the cleaners trim at the edges.
pub open spec fn is_space(c: char) -> bool {
    c == ' ' || c == '\t' || c == '\n' || c == '\r'
}

fn is_space_char(c: char) -> (r: bool)
    ensures
        r == is_space(c),
{
    c == ' ' || c == '\t' || c == '\n' || c == '\r'
}

/// First index at or after `from` holding a non-space character, or `s.len()`.
pub open spec fn trim_start_idx(s: Seq<char>, from: int) -> int
    decreases s.len() - from when 0 <= from <= s.len()
{
    if from >= s.len() {
        s.len() as int
    } else if is_space(s[from]) {
        trim_start_idx(s, from + 1)
    } else {
        from
    }
}

/// Exclusive end of the trimmed text when scanning backward from `from`:
/// the least suffix of spaces is dropped.
pub open spec fn trim_end_idx(s: Seq<char>, from: int) -> int
    decreases from when 0 <= from <= s.len()
{
    if from <= 0 {
        0
    } else if is_space(s[from - 1]) {
        trim_end_idx(s, from - 1)
    } else {
        from
    }
}

pub proof fn lemma_trim_idx_bounds(s: Seq<char>)
    ensures
        0 <= trim_start_idx(s, 0) <= s.len(),
        0 <= trim_end_idx(s, s.len() as int) <= s.len(),
{
    lemma_trim_start_bounds(s, 0);
    lemma_trim_end_bounds(s, s.len() as int);
}

proof fn lemma_trim_start_bounds(s: Seq<char>, from: int)
    requires
        0 <= from <= s.len(),
    ensures
        from <= trim_start_idx(s, from) <= s.len(),
    decreases s.len() - from,
{
    if from < s.len() && is_space(s[from]) {
        lemma_trim_start_bounds(s, from + 1);
    }
}

proof fn lemma_trim_end_bounds(s: Seq<char>, from: int)
    requires
        0 <= from <= s.len(),
    ensures
        0 <= trim_end_idx(s, from) <= from,
    decreases from,
{
    if from > 0 && is_space(s[from - 1]) {
        lemma_trim_end_bounds(s, from - 1);
    }
}

/// `s` without leading and trailing whitespace.
pub open spec fn spec_trim(s: Seq<char>) -> Seq<char> {
    let a = trim_start_idx(s, 0);
    let b = trim_end_idx(s, s.len() as int);
    if a <= b {
        s.subrange(a, b)
    } else {
        Seq::empty()
    }
}

/// Trims whitespace from both ends.
pub fn trim_str(s: &str) -> (r: String)
    ensures
        r@ == spec_trim(s@),
{
    let n = s.unicode_len();
    let mut a: usize = 0;
    while a < n
        invariant
            0 <= a <= n,
            n == s@.len(),
            trim_start_idx(s@, 0) == trim_start_idx(s@, a as int),
        ensures
            0 <= a <= n,
            n == s@.len(),
            a == trim_start_idx(s@, 0),
        decreases n - a,
    {
        if !is_space_char(s.get_char(a)) {
            break;
        }
        a = a + 1;
    }
    let mut b: usize = n;
    while b > 0
        invariant
            0 <= b <= n,
            n == s@.len(),
            trim_end_idx(s@, n as int) == trim_end_idx(s@, b as int),
        ensures
            0 <= b <= n,
            n == s@.len(),
            b == trim_end_idx(s@, n as int),
        decreases b,
    {
        if !is_space_char(s.get_char(b - 1)) {
            break;
        }
        b = b - 1;
    }
    if a <= b {
        String::from_str(s.substring_char(a, b))
    } else {
        String::new()
    }
}

/// ASCII case folding: `'A'..='Z'` map to their lowercase forms, every other
/// character is unchanged.
pub open spec fn lower_char(c: char) -> char {
    if 'A' <= c && c <= 'Z' {
        ((c as u32) + 32) as char
    } else {
        c
    }
}

pub fn to_lower_char(c: char) -> (r: char)
    ensures
        r == lower_char(c),
{
    match c {
        'A' => 'a',
        'B' => 'b',
        'C' => 'c',
        'D' => 'd',
        'E' => 'e',
        'F' => 'f',
        'G' => 'g',
        'H' => 'h',
        'I' => 'i',
        'J' => 'j',
        'K' => 'k',
        'L' => 'l',
        'M' => 'm',
        'N' => 'n',
        'O' => 'o',
        'P' => 'p',
        'Q' => 'q',
        'R' => 'r',
        'S' => 's',
        'T' => 't',
        'U' => 'u',
        'V' => 'v',
        'W' => 'w',
        'X' => 'x',
        'Y' => 'y',
        'Z' => 'z',
        _ => c,
    }
}

/// First index `i` in `[from, s.len())` holding either `c1` or `c2`, or
/// `s.len()` if there is none.
pub open spec fn spec_find_either(s: Seq<char>, c1: char, c2: char, from: int) -> int
    decreases s.len() - from when 0 <= from <= s.len()
{
    if from >= s.len() {
        s.len() as int
    } else if s[from] == c1 || s[from] == c2 {
        from
    } else {
        spec_find_either(s, c1, c2, from + 1)
    }
}

pub proof fn lemma_find_either_bounds(s: Seq<char>, c1: char, c2: char, from: int)
    requires
        0 <= from <= s.len(),
    ensures
        from <= spec_find_either(s, c1, c2, from) <= s.len(),
    decreases s.len() - from,
{
    if from < s.len() && s[from] != c1 && s[from] != c2 {
        lemma_find_either_bounds(s, c1, c2, from + 1);
    }
}

/// Linear scan for the first of two characters.
pub fn find_either_char(s: &str, c1: char, c2: char) -> (r: usize)
    ensures
        r == spec_find_either(s@, c1, c2, 0),
{
    let n = s.unicode_len();
    let mut i: usize = 0;
    while i < n
        invariant
            0 <= i <= n,
            n == s@.len(),
            spec_find_either(s@, c1, c2, 0) == spec_find_either(s@, c1, c2, i as int),
        decreases n - i,
    {
        let c = s.get_char(i);
        if c == c1 || c == c2 {
            return i;
        }
        i = i + 1;
    }
    i
}

/// The pattern `p` occurs verbatim in `h` at offset `i`.
pub open spec fn matches_at(h: Seq<char>, p: Seq<char>, i: int) -> bool {
    forall|j: int| 0 <= j < p.len() ==> h[i + j] == #[trigger] p[j]
}

/// Offset of the first verbatim occurrence of `p` at or after `from`.
pub open spec fn spec_find_sub(h: Seq<char>, p: Seq<char>, from: int) -> Option<int>
    decreases h.len() - from when 0 <= from <= h.len()
{
    if from + p.len() > h.len() {
        None
    } else if matches_at(h, p, from) {
        Some(from)
    } else {
        spec_find_sub(h, p, from + 1)
    }
}

pub proof fn lemma_find_sub_bounds(h: Seq<char>, p: Seq<char>, from: int)
    requires
        0 <= from <= h.len(),
    ensures
        spec_find_sub(h, p, from) matches Some(k) ==> from <= k && k + p.len() <= h.len()
            && matches_at(h, p, k),
    decreases h.len() - from,
{
    if from + p.len() <= h.len() && !matches_at(h, p, from) {
        lemma_find_sub_bounds(h, p, from + 1);
    }
}

/// Whether `pat` occurs verbatim in `s` at offset `i`.
pub fn match_at(s: &str, i: usize, pat: &str) -> (r: bool)
    requires
        i + pat@.len() <= s@.len(),
    ensures
        r == matches_at(s@, pat@, i as int),
{
    let n = s.unicode_len();
    let p_len = pat.unicode_len();
    let mut j: usize = 0;
    while j < p_len
        invariant
            0 <= j <= p_len,
            p_len == pat@.len(),
            n == s@.len(),
            i + p_len <= n,
            forall|k: int| 0 <= k < j ==> s@[i + k] == #[trigger] pat@[k],
        decreases p_len - j,
    {
        if s.get_char(i + j) != pat.get_char(j) {
            assert(s@[i + j] != pat@[j as int]);
            return false;
        }
        j = j + 1;
    }
    true
}

/// Offset of the first verbatim occurrence of `pat` in `s`, if any.
pub fn find_sub(s: &str, pat: &str) -> (r: Option<usize>)
    ensures
        match r {
            Some(k) => Some(k as int) == spec_find_sub(s@, pat@, 0),
            None => spec_find_sub(s@, pat@, 0) is None,
        },
{
    let n = s.unicode_len();
    let p_len = pat.unicode_len();
    if p_len > n {
        return None;
    }
    if p_len == 0 {
        assert(matches_at(s@, pat@, 0));
        return Some(0);
    }
    let mut i: usize = 0;
    while i <= n - p_len
        invariant
            0 <= i,
            i + p_len <= n + 1,
            1 <= p_len <= n,
            n == s@.len(),
            p_len == pat@.len(),
            spec_find_sub(s@, pat@, 0) == spec_find_sub(s@, pat@, i as int),
        decreases n - i,
    {
        if match_at(s, i, pat) {
            return Some(i);
        }
        i = i + 1;
    }
    None
}

/// The lowercase image of `p` occurs in `h[i..]`, comparing after ASCII
/// case folding of the haystack.  `p` itself is expected lowercase.
pub open spec fn matches_ci_at(h: Seq<char>, p: Seq<char>, i: int) -> bool {
    forall|j: int| 0 <= j < p.len() ==> lower_char(h[i + j]) == #[trigger] p[j]
}

/// Case-insensitive containment of the (lowercase) pattern `p` in `h`.
pub open spec fn contains_ci(h: Seq<char>, p: Seq<char>) -> bool {
    exists|i: int| 0 <= i && i + p.len() <= h.len() && #[trigger] matches_ci_at(h, p, i)
}

fn match_ci_at(s: &str, from: usize, i: usize, to: usize, pat: &str) -> (r: bool)
    requires
        from + i + pat@.len() <= to <= s@.len(),
    ensures
        r == matches_ci_at(s@.subrange(from as int, to as int), pat@, i as int),
{
    let ghost h = s@.subrange(from as int, to as int);
    let p_len = pat.unicode_len();
    let mut j: usize = 0;
    while j < p_len
        invariant
            0 <= j <= p_len,
            p_len == pat@.len(),
            from + i + p_len <= to <= s@.len(),
            h == s@.subrange(from as int, to as int),
            forall|k: int| 0 <= k < j ==> lower_char(h[i + k]) == #[trigger] pat@[k],
        decreases p_len - j,
    {
        if to_lower_char(s.get_char(from + i + j)) != pat.get_char(j) {
            assert(lower_char(h[i + j]) != pat@[j as int]);
            return false;
        }
        j = j + 1;
    }
    true
}

/// Case-insensitive search for the lowercase pattern `pat` inside the
/// character range `[from, to)` of `s`.
pub fn contains_ci_range(s: &str, from: usize, to: usize, pat: &str) -> (r: bool)
    requires
        from <= to <= s@.len(),
    ensures
        r == contains_ci(s@.subrange(from as int, to as int), pat@),
{
    let ghost h = s@.subrange(from as int, to as int);
    let h_len = to - from;
    let p_len = pat.unicode_len();
    if p_len > h_len {
        return false;
    }
    let mut i: usize = 0;
    while i <= h_len - p_len
        invariant
            from <= to <= s@.len(),
            h == s@.subrange(from as int, to as int),
            h_len == h.len(),
            p_len == pat@.len(),
            p_len <= h_len,
            0 <= i <= h_len - p_len + 1,
            forall|t: int| 0 <= t < i ==> !(#[trigger] matches_ci_at(h, pat@, t)),
        decreases h_len - p_len - i + 1,
    {
        if match_ci_at(s, from, i, to, pat) {
            return true;
        }
        i = i + 1;
    }
    false
}

pub open spec fn is_digit(c: char) -> bool {
    '0' <= c && c <= '9'
}

fn is_digit_char(c: char) -> (r: bool)
    ensures
        r == is_digit(c),
{
    '0' <= c && c <= '9'
}

/// Numeric value of a decimal digit character.
pub open spec fn digit_val(c: char) -> int {
    (c as u32) - 48
}

pub open spec fn all_digits(s: Seq<char>) -> bool {
    forall|i: int| 0 <= i < s.len() ==> is_digit(#[trigger] s[i])
}

/// The integer denoted by a run of decimal digit characters.
pub open spec fn digits_int(s: Seq<char>) -> int
    decreases s.len(),
{
    if s.len() == 0 {
        0
    } else {
        digits_int(s.drop_last()) * 10 + digit_val(s.last())
    }
}

pub proof fn lemma_digits_int_nonneg(s: Seq<char>)
    requires
        all_digits(s),
    ensures
        digits_int(s) >= 0,
    decreases s.len(),
{
    if s.len() > 0 {
        assert(all_digits(s.drop_last())) by {
            assert(forall|i: int| 0 <= i < s.len() - 1 ==> s.drop_last()[i] == #[trigger] s[i]);
        }
        lemma_digits_int_nonneg(s.drop_last());
    }
}

/// Extending a digit run to the right never decreases its value.
pub proof fn lemma_digits_int_prefix_le(s: Seq<char>, k: int)
    requires
        all_digits(s),
        0 <= k <= s.len(),
    ensures
        digits_int(s.subrange(0, k)) <= digits_int(s),
    decreases s.len() - k,
{
    if k < s.len() {
        let t = s.subrange(0, k + 1);
        assert(all_digits(t));
        assert(t.drop_last() =~= s.subrange(0, k));
        lemma_digits_int_nonneg(t.drop_last());
        assert(digits_int(t) == digits_int(s.subrange(0, k)) * 10 + digit_val(t.last()));
        assert(digits_int(s.subrange(0, k)) <= digits_int(t));
        lemma_digits_int_prefix_le(s, k + 1);
        assert(s.subrange(0, s.len() as int) =~= s);
    } else {
        assert(s.subrange(0, k) =~= s);
    }
}

/// The integer a string denotes under the usual decimal syntax: an optional
/// sign followed by at least one digit, rejecting any other character and
/// any value outside the `i32` range.
pub open spec fn spec_parse_i32(s: Seq<char>) -> Option<i32> {
    let neg = s.len() > 0 && s[0] == '-';
    let ds = if s.len() > 0 && (s[0] == '+' || s[0] == '-') {
        s.skip(1)
    } else {
        s
    };
    if ds.len() > 0 && all_digits(ds) {
        let v = if neg {
            -digits_int(ds)
        } else {
            digits_int(ds)
        };
        if i32::MIN <= v <= i32::MAX {
            Some(v as i32)
        } else {
            None
        }
    } else {
        None
    }
}

/// Decimal string to `i32`, mirroring the usual parse: `None` on an empty
/// string, a stray character, or overflow.
pub fn parse_i32_str(s: &str) -> (r: Option<i32>)
    ensures
        r == spec_parse_i32(s@),
{
    let n = s.unicode_len();
    let mut idx: usize = 0;
    let mut neg = false;
    if n > 0 {
        let c = s.get_char(0);
        if c == '+' {
            idx = 1;
        } else if c == '-' {
            neg = true;
            idx = 1;
        }
    }
    if idx >= n {
        return None;
    }
    let ghost ds = if idx == 1 { s@.skip(1) } else { s@ };
    let limit: i64 = if neg { 2147483648 } else { 2147483647 };
    let mut acc: i64 = 0;
    let mut i = idx;
    while i < n
        invariant
            idx <= i <= n,
            idx <= 1,
            n == s@.len(),
            idx < n,
            (idx == 1) == (n > 0 && (s@[0] == '+' || s@[0] == '-')),
            neg == (n > 0 && s@[0] == '-'),
            ds == (if idx == 1 { s@.skip(1) } else { s@ }),
            limit == (if neg { 2147483648i64 } else { 2147483647i64 }),
            acc == digits_int(s@.subrange(idx as int, i as int)),
            all_digits(s@.subrange(idx as int, i as int)),
            0 <= acc <= limit,
        decreases n - i,
    {
        let c = s.get_char(i);
        if !is_digit_char(c) {
            assert(!all_digits(ds)) by {
                assert(ds[i - idx] == s@[i as int]);
            }
            return None;
        }
        let d: i64 = digit_value_i64(c);
        let ghost pre = s@.subrange(idx as int, i as int);
        let ghost cur = s@.subrange(idx as int, i + 1);
        proof {
            assert(cur.drop_last() =~= pre);
            assert(cur.last() == s@[i as int]);
        }
        if acc > (limit - d) / 10 {
            // The digits already exceed the i32 range; every extension of a
            // digit run is at least as large, so the parse must reject.
            proof {
                assert(acc * 10 + d > limit) by (nonlinear_arith)
                    requires acc > (limit - d) / 10 && 0 <= d <= 9 && limit >= 0;
                if all_digits(ds) {
                    assert(cur =~= ds.subrange(0, (i + 1 - idx) as int));
                    lemma_digits_int_prefix_le(ds, i + 1 - idx);
                }
            }
            return None;
        }
        proof {
            assert(acc * 10 + d <= limit) by (nonlinear_arith)
                requires acc <= (limit - d) / 10 && 0 <= d <= 9 && limit >= 0;
        }
        acc = acc * 10 + d;
        i = i + 1;
    }
    proof {
        assert(s@.subrange(idx as int, n as int) =~= ds);
    }
    if neg {
        Some((-acc) as i32)
    } else {
        Some(acc as i32)
    }
}

fn digit_value_i64(c: char) -> (d: i64)
    requires
        is_digit(c),
    ensures
        d == digit_val(c),
        0 <= d <= 9,
{
    match c {
        '0' => 0,
        '1' => 1,
        '2' => 2,
        '3' => 3,
        '4' => 4,
        '5' => 5,
        '6' => 6,
        '7' => 7,
        '8' => 8,
        _ => 9,
    }
}

/// Decimal digit character for a value in `0..=9`.
pub open spec fn digit_char(d: int) -> char {
    (48 + d) as char
}

/// Decimal digit characters of a non-negative integer, no leading zeros.
pub open spec fn spec_nat_digits(v: int) -> Seq<char>
    decreases v when v >= 0
{
    if v < 10 {
        seq![digit_char(v)]
    } else {
        spec_nat_digits(v / 10) + seq![digit_char(v % 10)]
    }
}

/// Decimal rendering of an `i32` value, `-` prefix for negatives.
pub open spec fn spec_i32_chars(v: int) -> Seq<char> {
    if v < 0 {
        seq!['-'] + spec_nat_digits(-v)
    } else {
        spec_nat_digits(v)
    }
}

fn digit_str(d: i64) -> (r: &'static str)
    requires
        0 <= d <= 9,
    ensures
        r@ == seq![digit_char(d as int)],
{
    match d {
        0 => {
            let r = "0";
            proof {
                reveal_strlit("0");
                assert(r@ =~= seq![digit_char(0)]);
            }
            r
        },
        1 => {
            let r = "1";
            proof {
                reveal_strlit("1");
                assert(r@ =~= seq![digit_char(1)]);
            }
            r
        },
        2 => {
            let r = "2";
            proof {
                reveal_strlit("2");
                assert(r@ =~= seq![digit_char(2)]);
            }
            r
        },
        3 => {
            let r = "3";
            proof {
                reveal_strlit("3");
                assert(r@ =~= seq![digit_char(3)]);
            }
            r
        },
        4 => {
            let r = "4";
            proof {
                reveal_strlit("4");
                assert(r@ =~= seq![digit_char(4)]);
            }
            r
        },
        5 => {
            let r = "5";
            proof {
                reveal_strlit("5");
                assert(r@ =~= seq![digit_char(5)]);
            }
            r
        },
        6 => {
            let r = "6";
            proof {
                reveal_strlit("6");
                assert(r@ =~= seq![digit_char(6)]);
            }
            r
        },
        7 => {
            let r = "7";
            proof {
                reveal_strlit("7");
                assert(r@ =~= seq![digit_char(7)]);
            }
            r
        },
        8 => {
            let r = "8";
            proof {
                reveal_strlit("8");
                assert(r@ =~= seq![digit_char(8)]);
            }
            r
        },
        _ => {
            let r = "9";
            proof {
                reveal_strlit("9");
                assert(r@ =~= seq![digit_char(9)]);
            }
            r
        },
    }
}

fn nat_digits_string(v: i64) -> (r: String)
    requires
        0 <= v,
    ensures
        r@ == spec_nat_digits(v as int),
    decreases v,
{
    if v < 10 {
        String::from_str(digit_str(v))
    } else {
        let mut r = nat_digits_string(v / 10);
        r.append(digit_str(v % 10));
        r
    }
}

/// Decimal rendering of an `i32`.
pub fn i32_to_string(v: i32) -> (r: String)
    ensures
        r@ == spec_i32_chars(v as int),
{
    if v < 0 {
        let mut r = String::from_str("-");
        let m: i64 = -(v as i64);
        r.append(nat_digits_string(m).as_str());
        proof {
            reveal_strlit("-");
            assert("-"@ =~= seq!['-']);
        }
        r
    } else {
        nat_digits_string(v as i64)
    }
}

pub proof fn lemma_nat_digits_shape(v: int)
    requires
        v >= 0,
    ensures
        spec_nat_digits(v).len() >= 1,
        all_digits(spec_nat_digits(v)),
        digits_int(spec_nat_digits(v)) == v,
    decreases v,
{
    let ds = spec_nat_digits(v);
    if v < 10 {
        assert(ds == seq![digit_char(v)]);
        assert(is_digit(digit_char(v)));
        assert(ds.drop_last() =~= Seq::<char>::empty());
        assert(digits_int(ds.drop_last()) == 0);
        assert(ds.last() == digit_char(v));
        assert(digit_val(digit_char(v)) == v);
        assert(digits_int(ds) == digit_val(digit_char(v)));
    } else {
        lemma_nat_digits_shape(v / 10);
        let head = spec_nat_digits(v / 10);
        assert(ds == head + seq![digit_char(v % 10)]);
        assert(ds.drop_last() =~= head);
        assert(ds.last() == digit_char(v % 10));
        assert(is_digit(digit_char(v % 10)));
        assert(digit_val(digit_char(v % 10)) == v % 10);
        assert(all_digits(ds)) by {
            assert(forall|i: int| 0 <= i < head.len() ==> ds[i] == #[trigger] head[i]);
        }
        assert(digits_int(ds) == (v / 10) * 10 + v % 10);
    }
}

/// Printing an `i32` and reading it back yields the same value: the years in
/// a resume line survive the round trip exactly.
pub proof fn lemma_i32_chars_parse_round_trip(v: i32)
    ensures
        spec_parse_i32(spec_i32_chars(v as int)) == Some(v),
{
    let s = spec_i32_chars(v as int);
    if v < 0 {
        let m = -(v as int);
        lemma_nat_digits_shape(m);
        let ds = spec_nat_digits(m);
        assert(s == seq!['-'] + ds);
        assert(s[0] == '-');
        assert(s.skip(1) =~= ds);
        assert(ds.len() > 0 && ds[0] != '+' && ds[0] != '-') by {
            assert(is_digit(ds[0]));
        }
    } else {
        lemma_nat_digits_shape(v as int);
        let ds = spec_nat_digits(v as int);
        assert(s == ds);
        assert(ds.len() > 0 && is_digit(ds[0]));
        assert(s[0] != '+' && s[0] != '-');
    }
}

/// The pieces of `s` between occurrences of `sep`, scanning from `i` with the
/// current piece open since `start`.  Splitting never drops a piece: `n`
/// separators yield `n + 1` pieces.
pub open spec fn spec_split_from(s: Seq<char>, sep: char, i: int, start: int) -> Seq<Seq<char>>
    decreases s.len() - i when 0 <= start <= i <= s.len()
{
    if i >= s.len() {
        seq![s.subrange(start, s.len() as int)]
    } else if s[i] == sep {
        seq![s.subrange(start, i)] + spec_split_from(s, sep, i + 1, i + 1)
    } else {
        spec_split_from(s, sep, i + 1, start)
    }
}

pub open spec fn spec_split(s: Seq<char>, sep: char) -> Seq<Seq<char>> {
    spec_split_from(s, sep, 0, 0)
}

/// Splits `s` at every occurrence of `sep`.
pub fn split_char(s: &str, sep: char) -> (parts: Vec<String>)
    ensures
        parts@.map_values(|p: String| p@) == spec_split(s@, sep),
{
    let n = s.unicode_len();
    let mut parts: Vec<String> = Vec::new();
    let mut start: usize = 0;
    let mut i: usize = 0;
    while i < n
        invariant
            0 <= start <= i <= n,
            n == s@.len(),
            spec_split(s@, sep) == parts@.map_values(|p: String| p@) + spec_split_from(
                s@,
                sep,
                i as int,
                start as int,
            ),
        decreases n - i,
    {
        if s.get_char(i) == sep {
            let ghost prev = parts@;
            parts.push(String::from_str(s.substring_char(start, i)));
            proof {
                assert(parts@.map_values(|p: String| p@) =~= prev.map_values(|p: String| p@)
                    + seq![s@.subrange(start as int, i as int)]);
            }
            start = i + 1;
        }
        i = i + 1;
    }
    let ghost prev = parts@;
    parts.push(String::from_str(s.substring_char(start, n)));
    proof {
        assert(parts@.map_values(|p: String| p@) =~= prev.map_values(|p: String| p@)
            + seq![s@.subrange(start as int, n as int)]);
    }
    parts
}

proof fn lemma_split_shift(u: Seq<char>, t: Seq<char>, sep: char, i: int, start: int)
    requires
        0 <= start <= i <= t.len(),
    ensures
        spec_split_from(u + t, sep, u.len() + i, u.len() + start) == spec_split_from(
            t,
            sep,
            i,
            start,
        ),
    decreases t.len() - i,
{
    let s = u + t;
    if i >= t.len() {
        assert(s.subrange(u.len() + start, s.len() as int) =~= t.subrange(start, t.len() as int));
        assert(spec_split_from(s, sep, u.len() + i, u.len() + start) =~= spec_split_from(
            t,
            sep,
            i,
            start,
        ));
    } else {
        assert(s[u.len() + i] == t[i]);
        if t[i] == sep {
            lemma_split_shift(u, t, sep, i + 1, i + 1);
            assert(s.subrange(u.len() + start, u.len() + i) =~= t.subrange(start, i));
            assert(spec_split_from(s, sep, u.len() + i, u.len() + start) =~= spec_split_from(
                t,
                sep,
                i,
                start,
            ));
        } else {
            lemma_split_shift(u, t, sep, i + 1, start);
        }
    }
}

proof fn lemma_split_no_sep_from(s: Seq<char>, sep: char, i: int, start: int)
    requires
        0 <= start <= i <= s.len(),
        forall|j: int| i <= j < s.len() ==> (#[trigger] s[j]) != sep,
    ensures
        spec_split_from(s, sep, i, start) == seq![s.subrange(start, s.len() as int)],
    decreases s.len() - i,
{
    if i < s.len() {
        lemma_split_no_sep_from(s, sep, i + 1, start);
    }
}

/// Splitting a string that does not contain the separator yields the whole
/// string as its single piece.
pub proof fn lemma_split_whole(s: Seq<char>, sep: char)
    requires
        forall|j: int| 0 <= j < s.len() ==> (#[trigger] s[j]) != sep,
    ensures
        spec_split(s, sep) == seq![s],
{
    lemma_split_no_sep_from(s, sep, 0, 0);
    assert(s.subrange(0, s.len() as int) =~= s);
}

/// Splitting at a separator peels off the leading separator-free piece.
pub proof fn lemma_split_concat(a: Seq<char>, rest: Seq<char>, sep: char)
    requires
        forall|j: int| 0 <= j < a.len() ==> (#[trigger] a[j]) != sep,
    ensures
        spec_split(a + seq![sep] + rest, sep) == seq![a] + spec_split(rest, sep),
    decreases a.len(),
{
    let s = a + seq![sep] + rest;
    assert(s.len() == a.len() + 1 + rest.len());
    lemma_split_prefix_advance(s, sep, a.len() as int, 0);
    assert(s[a.len() as int] == sep);
    assert(spec_split_from(s, sep, a.len() as int, 0) == seq![s.subrange(0, a.len() as int)]
        + spec_split_from(s, sep, a.len() as int + 1, a.len() as int + 1));
    assert(s.subrange(0, a.len() as int) =~= a);
    assert(s =~= (a + seq![sep]) + rest);
    lemma_split_shift(a + seq![sep], rest, sep, 0, 0);
    assert((a + seq![sep]).len() == a.len() + 1);
    assert(spec_split_from(s, sep, a.len() as int + 1, a.len() as int + 1) == spec_split(rest, sep));
}

/// Scanning over separator-free characters does not change the split.
proof fn lemma_split_prefix_advance(s: Seq<char>, sep: char, m: int, i: int)
    requires
        0 <= i <= m <= s.len(),
        forall|j: int| 0 <= j < m ==> (#[trigger] s[j]) != sep,
    ensures
        spec_split_from(s, sep, i, 0) == spec_split_from(s, sep, m, 0),
    decreases m - i,
{
    if i < m {
        lemma_split_prefix_advance(s, sep, m, i + 1);
    }
}

/// The parts joined with `sep` between consecutive parts.
pub open spec fn spec_join(parts: Seq<Seq<char>>, sep: Seq<char>) -> Seq<char>
    decreases parts.len(),
{
    if parts.len() == 0 {
        Seq::empty()
    } else if parts.len() == 1 {
        parts[0]
    } else {
        spec_join(parts.drop_last(), sep) + sep + parts.last()
    }
}

/// Joins the strings with `sep`.
pub fn join_strings(parts: &Vec<String>, sep: &str) -> (r: String)
    ensures
        r@ == spec_join(parts@.map_values(|p: String| p@), sep@),
{
    let ghost mapped = parts@.map_values(|p: String| p@);
    let mut r = String::new();
    let mut k: usize = 0;
    while k < parts.len()
        invariant
            0 <= k <= parts.len(),
            mapped == parts@.map_values(|p: String| p@),
            r@ == spec_join(mapped.subrange(0, k as int), sep@),
        decreases parts.len() - k,
    {
        if k > 0 {
            r.append(sep);
        }
        r.append(parts[k].as_str());
        proof {
            let sub = mapped.subrange(0, k + 1);
            assert(sub.drop_last() =~= mapped.subrange(0, k as int));
            assert(sub.last() == mapped[k as int]);
        }
        k = k + 1;
    }
    proof {
        assert(mapped.subrange(0, parts@.len() as int) =~= mapped);
    }
    r
}

/// Lexicographic order on character sequences, by code point.
pub open spec fn seq_le(a: Seq<char>, b: Seq<char>) -> bool
    decreases a.len(),
{
    if a.len() == 0 {
        true
    } else if b.len() == 0 {
        false
    } else if a[0] != b[0] {
        (a[0] as int) < (b[0] as int)
    } else {
        seq_le(a.skip(1), b.skip(1))
    }
}

pub proof fn lemma_seq_le_total(a: Seq<char>, b: Seq<char>)
    ensures
        seq_le(a, b) || seq_le(b, a),
    decreases a.len(),
{
    if a.len() > 0 && b.len() > 0 {
        if a[0] == b[0] {
            lemma_seq_le_total(a.skip(1), b.skip(1));
        } else {
            assert((a[0] as int) != (b[0] as int));
        }
    }
}

pub proof fn lemma_seq_le_trans(a: Seq<char>, b: Seq<char>, c: Seq<char>)
    requires
        seq_le(a, b),
        seq_le(b, c),
    ensures
        seq_le(a, c),
    decreases a.len(),
{
    if a.len() > 0 && b.len() > 0 && c.len() > 0 && a[0] == b[0] && b[0] == c[0] {
        lemma_seq_le_trans(a.skip(1), b.skip(1), c.skip(1));
    }
}

/// Lexicographic comparison of two strings: `a` at or before `b`.
pub fn str_le(a: &str, b: &str) -> (r: bool)
    ensures
        r == seq_le(a@, b@),
{
    let an = a.unicode_len();
    let bn = b.unicode_len();
    proof {
        assert(a@.skip(0) =~= a@);
        assert(b@.skip(0) =~= b@);
    }
    let mut i: usize = 0;
    while i < an && i < bn
        invariant
            0 <= i <= an,
            i <= bn,
            an == a@.len(),
            bn == b@.len(),
            seq_le(a@, b@) == seq_le(a@.skip(i as int), b@.skip(i as int)),
        decreases an - i,
    {
        let ca = a.get_char(i);
        let cb = b.get_char(i);
        if ca != cb {
            return (ca as u32) < (cb as u32);
        }
        proof {
            assert(a@.skip(i as int).skip(1) =~= a@.skip(i + 1));
            assert(b@.skip(i as int).skip(1) =~= b@.skip(i + 1));
        }
        i = i + 1;
    }
    i == an
}

} // verus!
