//! What the live terminal UI takes from the library: the colour theme tag
//! and the number formatting used in its tables.  The rendering itself is
//! outside the library.

use vstd::prelude::*;

use crate::text::{chars_of, chars_range, dec_digits, string_from_chars, u64_to_string};

verus! {

/// The colour theme of the live UI.
#[derive(Clone, Copy, Debug, PartialEq, Eq, Structural)]
pub enum Theme {
    Dark,
    Light,
}

/// A count scaled by `unit * 10` with one decimal digit, rounding half up.
pub open spec fn spec_scaled_tenths(n: int, unit: int) -> Seq<char> {
    let tenths = (n + unit / 2) / unit;
    dec_digits(tenths / 10) + "."@ + dec_digits(tenths % 10)
}

/// A count with a suffix: millions and thousands to one decimal, smaller
/// numbers plain.
pub open spec fn spec_format_number(n: int) -> Seq<char> {
    if n >= 1_000_000 {
        spec_scaled_tenths(n, 100_000) + "M"@
    } else if n >= 1000 {
        spec_scaled_tenths(n, 100) + "K"@
    } else {
        dec_digits(n)
    }
}

/// Formats a count as the UI shows it, exactly as `spec_format_number`
/// describes.
pub fn format_number(n: u64) -> (r: String)
    ensures
        r@ == spec_format_number(n as int),
{
    if n >= 1_000_000 {
        let tenths: u64 = (((n as u128) + 50_000) / 100_000) as u64;
        let mut s = u64_to_string(tenths / 10);
        s.append(".");
        let frac = u64_to_string(tenths % 10);
        s.append(frac.as_str());
        s.append("M");
        s
    } else if n >= 1000 {
        let tenths: u64 = (n + 50) / 100;
        let mut s = u64_to_string(tenths / 10);
        s.append(".");
        let frac = u64_to_string(tenths % 10);
        s.append(frac.as_str());
        s.append("K");
        s
    } else {
        u64_to_string(n)
    }
}

/// A string cut to `max_len` characters: short strings pass through, longer
/// ones keep their first `max_len - 3` characters and end in `...`.
pub open spec fn spec_truncate(s: Seq<char>, max_len: int) -> Seq<char> {
    if s.len() <= max_len {
        s
    } else {
        let keep = if max_len >= 3 {
            max_len - 3
        } else {
            0
        };
        s.subrange(0, keep) + "..."@
    }
}

/// Truncates a string for a table cell, exactly as `spec_truncate`
/// describes.
pub fn truncate_string(s: &str, max_len: usize) -> (r: String)
    ensures
        r@ == spec_truncate(s@, max_len as int),
{
    let cs = chars_of(s);
    if cs.len() <= max_len {
        string_from_chars(&cs)
    } else {
        let keep: usize = if max_len >= 3 {
            max_len - 3
        } else {
            0
        };
        let mut r = string_from_chars(&chars_range(&cs, 0, keep));
        r.append("...");
        r
    }
}

} // verus!
