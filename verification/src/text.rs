//! Character-level helpers shared by the parsers: extracting the characters
//! of a string, decimal conversion in both directions, and small string
//! builders.

use vstd::prelude::*;

verus! {

/// The whitespace characters the parsers strip: the ASCII blanks.
pub open spec fn is_space(c: char) -> bool {
    c == ' ' || c == '\t' || c == '\n' || c == '\r'
}

/// Runtime test matching `is_space`.
pub fn space(c: char) -> (r: bool)
    ensures
        r == is_space(c),
{
    c == ' ' || c == '\t' || c == '\n' || c == '\r'
}

/// The characters of `s`, as a vector.
pub fn chars_of(s: &str) -> (v: Vec<char>)
    ensures
        v@ == s@,
{
    let n = s.unicode_len();
    let mut v: Vec<char> = Vec::new();
    let mut i: usize = 0;
    while i < n
        invariant
            n == s@.len(),
            i <= n,
            v@ == s@.subrange(0, i as int),
        decreases n - i,
    {
        v.push(s.get_char(i));
        i = i + 1;
        assert(v@ =~= s@.subrange(0, i as int));
    }
    assert(v@ =~= s@);
    v
}

/// Whether two string slices hold the same characters.
pub fn str_eq(a: &str, b: &str) -> (r: bool)
    ensures
        r == (a@ == b@),
{
    let x = a.to_owned();
    let y = b.to_owned();
    x == y
}

/// Relies on `String::push`: appends one character to the string.
#[verifier::external_body]
pub fn push_char(s: &mut String, c: char)
    ensures
        final(s)@ == old(s)@.push(c),
{
    s.push(c);
}

/// A string holding exactly the characters of `v`.
pub fn string_from_chars(v: &Vec<char>) -> (s: String)
    ensures
        s@ == v@,
{
    let mut s = String::new();
    let mut i: usize = 0;
    while i < v.len()
        invariant
            i <= v@.len(),
            s@ == v@.subrange(0, i as int),
        decreases v@.len() - i,
    {
        push_char(&mut s, v[i]);
        i = i + 1;
        assert(s@ =~= v@.subrange(0, i as int));
    }
    assert(s@ =~= v@);
    s
}

/// A copy of the characters `v[from..to]`.
pub fn chars_range(v: &Vec<char>, from: usize, to: usize) -> (r: Vec<char>)
    requires
        from <= to <= v@.len(),
    ensures
        r@ == v@.subrange(from as int, to as int),
{
    let mut r: Vec<char> = Vec::new();
    let mut i: usize = from;
    while i < to
        invariant
            from <= i <= to <= v@.len(),
            r@ == v@.subrange(from as int, i as int),
        decreases to - i,
    {
        r.push(v[i]);
        i = i + 1;
        assert(r@ =~= v@.subrange(from as int, i as int));
    }
    r
}

/// Index of the first non-space character at or after `i`, or the length.
pub open spec fn scan_space(s: Seq<char>, i: int) -> int
    decreases s.len() - i,
{
    if i < 0 || i >= s.len() {
        s.len() as int
    } else if is_space(s[i]) {
        scan_space(s, i + 1)
    } else {
        i
    }
}

/// Index just after the last non-space character strictly before `j`,
/// or 0 when they are all spaces.
pub open spec fn scan_space_back(s: Seq<char>, j: int) -> int
    decreases j,
{
    if j <= 0 {
        0
    } else if is_space(s[j - 1]) {
        scan_space_back(s, j - 1)
    } else {
        j
    }
}

/// `s` with leading and trailing spaces removed.
pub open spec fn spec_trim(s: Seq<char>) -> Seq<char> {
    let a = scan_space(s, 0);
    if a == s.len() {
        Seq::empty()
    } else {
        s.subrange(a, scan_space_back(s, s.len() as int))
    }
}

/// Scanning back never crosses a non-space character.
proof fn lemma_scan_back_stops(s: Seq<char>, a: int, j: int)
    requires
        0 <= a < s.len(),
        !is_space(s[a]),
        a + 1 <= j <= s.len(),
    ensures
        a + 1 <= scan_space_back(s, j) <= j,
    decreases j,
{
    if j > a + 1 && is_space(s[j - 1]) {
        lemma_scan_back_stops(s, a, j - 1);
    }
}

/// The characters of `v` with leading and trailing spaces removed.
pub fn trim_chars(v: &Vec<char>) -> (t: Vec<char>)
    ensures
        t@ == spec_trim(v@),
{
    let n = v.len();
    let mut a: usize = 0;
    while a < n && space(v[a])
        invariant
            n == v@.len(),
            a <= n,
            scan_space(v@, 0) == scan_space(v@, a as int),
        decreases n - a,
    {
        a = a + 1;
    }
    assert(scan_space(v@, a as int) == a);
    if a == n {
        let t: Vec<char> = Vec::new();
        return t;
    }
    let mut b: usize = n;
    while b > a && space(v[b - 1])
        invariant
            a < b <= n,
            n == v@.len(),
            a == scan_space(v@, 0),
            !is_space(v@[a as int]),
            scan_space_back(v@, n as int) == scan_space_back(v@, b as int),
        decreases b,
    {
        proof {
            lemma_scan_back_stops(v@, a as int, b - 1);
        }
        b = b - 1;
    }
    assert(scan_space_back(v@, b as int) == b);
    chars_range(v, a, b)
}

pub open spec fn is_digit(c: char) -> bool {
    48 <= c as int <= 57
}

/// Runtime test matching `is_digit`.
pub fn digit(c: char) -> (r: bool)
    ensures
        r == is_digit(c),
{
    '0' <= c && c <= '9'
}

pub open spec fn digit_val(c: char) -> int {
    c as int - 48
}

pub open spec fn all_digits(s: Seq<char>) -> bool {
    forall|i: int| 0 <= i < s.len() ==> is_digit(s[i])
}

/// The number written in decimal by the digit characters of `s`.
pub open spec fn dec_value(s: Seq<char>) -> int
    decreases s.len(),
{
    if s.len() == 0 {
        0
    } else {
        dec_value(s.drop_last()) * 10 + digit_val(s.last())
    }
}

pub proof fn lemma_dec_value_nonneg(s: Seq<char>)
    requires
        all_digits(s),
    ensures
        dec_value(s) >= 0,
    decreases s.len(),
{
    if s.len() > 0 {
        assert(all_digits(s.drop_last()));
        lemma_dec_value_nonneg(s.drop_last());
    }
}

/// A decimal number only grows when digits are appended on the right.
pub proof fn lemma_dec_value_prefix_le(s: Seq<char>, i: int)
    requires
        all_digits(s),
        0 <= i <= s.len(),
    ensures
        dec_value(s.subrange(0, i)) <= dec_value(s),
    decreases s.len() - i,
{
    if i < s.len() {
        let t = s.subrange(0, i + 1);
        assert(t.drop_last() =~= s.subrange(0, i));
        assert(all_digits(s.subrange(0, i)));
        lemma_dec_value_nonneg(s.subrange(0, i));
        lemma_dec_value_prefix_le(s, i + 1);
    } else {
        assert(s.subrange(0, i) =~= s);
    }
}

/// The decimal value of `v[from..to]`, when it is a well-formed number that
/// fits in a `u64`; `None` otherwise.
pub fn parse_u64_range(v: &Vec<char>, from: usize, to: usize) -> (r: Option<u64>)
    requires
        from <= to <= v@.len(),
    ensures
        ({
            let s = v@.subrange(from as int, to as int);
            &&& (r is Some) <==> (s.len() > 0 && all_digits(s) && dec_value(s) <= u64::MAX)
            &&& (r matches Some(n) ==> n == dec_value(s))
        }),
{
    let ghost s = v@.subrange(from as int, to as int);
    if from == to {
        return None;
    }
    let mut acc: u64 = 0;
    let mut i: usize = from;
    while i < to
        invariant
            from <= i <= to <= v@.len(),
            s == v@.subrange(from as int, to as int),
            all_digits(s.subrange(0, i - from)),
            acc == dec_value(s.subrange(0, i - from)),
        decreases to - i,
    {
        let c = v[i];
        let ghost pre = s.subrange(0, i - from);
        let ghost cur = s.subrange(0, i + 1 - from);
        proof {
            assert(cur.drop_last() =~= pre);
            assert(cur.last() == s[i - from]);
            assert(s[i - from] == v@[i as int]);
        }
        if !digit(c) {
            proof {
                assert(!is_digit(s[i - from]));
            }
            return None;
        }
        let d: u64 = (c as u32 as u64) - 48;
        proof {
            assert(d == digit_val(s[i - from]));
        }
        if acc > (u64::MAX - d) / 10 {
            proof {
                assert(acc * 10 + d > u64::MAX) by (nonlinear_arith)
                    requires
                        acc > (u64::MAX - d) / 10,
                        0 <= d <= 9,
                        (u64::MAX - d) / 10 == ((u64::MAX - d) as int) / 10,
                {
                }
                assert(dec_value(cur) > u64::MAX);
                assert(all_digits(cur)) by {
                    assert(forall|j: int|
                        0 <= j < cur.len() ==> cur[j] == #[trigger] s[j] && is_digit(s[j]));
                }
                if s.len() > 0 && all_digits(s) && dec_value(s) <= u64::MAX {
                    lemma_dec_value_prefix_le(s, i + 1 - from);
                }
            }
            return None;
        }
        acc = acc * 10 + d;
        i = i + 1;
    }
    proof {
        assert(s.subrange(0, to - from) =~= s);
    }
    Some(acc)
}

/// The decimal digit characters, most significant first, of `n >= 0`.
pub open spec fn dec_digits(n: int) -> Seq<char>
    decreases n,
{
    if n < 10 {
        seq![digit_char(n)]
    } else {
        dec_digits(n / 10).push(digit_char(n % 10))
    }
}

pub open spec fn digit_char(d: int) -> char {
    DIGITS[d]
}

pub const DIGITS: [char; 10] = ['0', '1', '2', '3', '4', '5', '6', '7', '8', '9'];

/// `n` written in decimal.
pub fn u64_to_string(n: u64) -> (s: String)
    ensures
        s@ == dec_digits(n as int),
    decreases n,
{
    if n < 10 {
        let mut s = String::new();
        push_char(&mut s, DIGITS[n as usize]);
        assert(s@ =~= seq![digit_char(n as int)]);
        s
    } else {
        let mut s = u64_to_string(n / 10);
        push_char(&mut s, DIGITS[(n % 10) as usize]);
        s
    }
}

/// The decimal rendering of a signed number: a minus sign, then the digits
/// of the magnitude.
pub open spec fn dec_signed(v: int) -> Seq<char> {
    if v < 0 {
        seq!['-'] + dec_digits(-v)
    } else {
        dec_digits(v)
    }
}

/// `v` written in decimal, with a leading minus sign when negative.
pub fn i64_to_string(v: i64) -> (s: String)
    ensures
        s@ == dec_signed(v as int),
{
    if v >= 0 {
        u64_to_string(v as u64)
    } else {
        let mag: u64 = (-(v as i128)) as u64;
        assert(mag == -(v as int));
        let digits = u64_to_string(mag);
        let mut s = String::new();
        push_char(&mut s, '-');
        s.append(digits.as_str());
        assert(s@ =~= seq!['-'] + dec_digits(mag as int));
        s
    }
}

/// Whether the characters of `t` start with the characters of `p`.
pub fn starts_with_chars(t: &Vec<char>, p: &str) -> (r: bool)
    ensures
        r == (t@.len() >= p@.len() && t@.subrange(0, p@.len() as int) == p@),
{
    let pc = chars_of(p);
    let k = pc.len();
    if t.len() < k {
        return false;
    }
    let mut i: usize = 0;
    while i < k
        invariant
            k == p@.len() <= t@.len(),
            pc@ == p@,
            i <= k,
            forall|j: int| 0 <= j < i ==> t@[j] == p@[j],
        decreases k - i,
    {
        if t[i] != pc[i] {
            proof {
                assert(t@.subrange(0, k as int)[i as int] != p@[i as int]);
            }
            return false;
        }
        i = i + 1;
    }
    proof {
        assert(t@.subrange(0, k as int) =~= p@);
    }
    true
}

} // verus!
