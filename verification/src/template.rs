//! The template variable engine: `{{name}}` placeholders resolved against
//! defined variables or inline generators (`random:MIN-MAX`, `uuid`,
//! `timestamp[:fmt]`, `sequence:START`, `choice:a,b,c`).  Unknown names are
//! left untouched.
//!
//! Replacements for random generators cannot be pinned to one value; the
//! contracts state what holds of every outcome (`valid_replacement`), and
//! that text without placeholders passes through unchanged.

use vstd::prelude::*;

use crate::cli::{is_u64_num, num_val};
use crate::text::{
    chars_of, chars_range, dec_digits, dec_signed, i64_to_string, parse_u64_range,
    starts_with_chars, str_eq, string_from_chars, u64_to_string,
};

verus! {

/// A variable definition that does not parse.
#[derive(Clone, Copy, Debug, PartialEq, Eq, Structural)]
pub enum TemplateError {
    /// A `random:` definition without exactly `min-max`.
    InvalidRandomRange,
    /// A number in a definition that does not parse or fit.
    InvalidNumber,
    /// A `timestamp:`/`now:` format that is not recognized.
    UnknownTimestampFormat,
}

impl TemplateError {
    /// A short description, used as a report line.
    pub fn message(&self) -> (r: &'static str)
        ensures
            self is InvalidRandomRange ==> r@ == "Invalid random range format. Expected: random:min-max"@,
            self is InvalidNumber ==> r@ == "invalid number in variable definition"@,
            self is UnknownTimestampFormat ==> r@ == "Unknown timestamp format"@,
    {
        match self {
            TemplateError::InvalidRandomRange => "Invalid random range format. Expected: random:min-max",
            TemplateError::InvalidNumber => "invalid number in variable definition",
            TemplateError::UnknownTimestampFormat => "Unknown timestamp format",
        }
    }
}

/// How a timestamp placeholder is rendered.
#[derive(Clone, Copy, Debug, PartialEq, Eq, Structural)]
pub enum TimestampFormat {
    Unix,
    UnixMs,
    Rfc3339,
    Iso8601,
    Date,
    Time,
}

/// One kind of generated value.
pub enum VariableType {
    /// A uniform random integer between `min` and `max`, inclusive.
    Random { min: i64, max: i64 },
    /// A fresh random UUID.
    Uuid,
    /// The current time in the given format.
    Timestamp { format: TimestampFormat },
    /// The fixed number `start` (counters are not advanced between calls).
    Sequence { start: u64 },
    /// A uniformly random pick among the options.
    Choice { options: Vec<String> },
    /// A fixed string.
    Static { value: String },
}

/// The mathematical shape of a variable kind.
pub enum VarModel {
    Random { min: i64, max: i64 },
    Uuid,
    Timestamp { format: TimestampFormat },
    Sequence { start: u64 },
    Choice { options: Seq<Seq<char>> },
    Static { value: Seq<char> },
}

pub open spec fn var_model(v: VariableType) -> VarModel {
    match v {
        VariableType::Random { min, max } => VarModel::Random { min, max },
        VariableType::Uuid => VarModel::Uuid,
        VariableType::Timestamp { format } => VarModel::Timestamp { format },
        VariableType::Sequence { start } => VarModel::Sequence { start },
        VariableType::Choice { options } => VarModel::Choice {
            options: options@.map_values(|o: String| o@),
        },
        VariableType::Static { value } => VarModel::Static { value: value@ },
    }
}

// ---- parsing definitions ----

/// Pieces of `s` between occurrences of `c`.
pub open spec fn spec_split(s: Seq<char>, c: char, i: int) -> Seq<Seq<char>>
    decreases s.len() + 1 - i,
    when 0 <= i
    via spec_split_decreases
{
    if i > s.len() {
        Seq::empty()
    } else {
        let e = crate::curl::find_char(s, c, i);
        seq![s.subrange(i, e)] + spec_split(s, c, e + 1)
    }
}

#[via_fn]
proof fn spec_split_decreases(s: Seq<char>, c: char, i: int) {
    if 0 <= i <= s.len() {
        crate::curl::lemma_find_char_range(s, c, i);
    }
}

/// A number that fits the signed range, written without a sign (an
/// optional `+` allowed).
pub open spec fn is_i64_part(s: Seq<char>) -> bool {
    is_u64_num(s) && num_val(s) <= i64::MAX
}

/// The variable kind a definition names, or the error it raises:
/// `random:min-max`, `uuid`, `timestamp[:fmt]` / `now[:fmt]`,
/// `sequence:start`, `choice:a,b,c`, and anything else as a literal.
pub open spec fn spec_parse_vardef(d: Seq<char>) -> Result<VarModel, TemplateError> {
    if d.len() >= 7 && d.subrange(0, 7) == "random:"@ {
        let range = d.subrange(7, d.len() as int);
        let parts = spec_split(range, '-', 0);
        if parts.len() != 2 {
            Err(TemplateError::InvalidRandomRange)
        } else if is_i64_part(parts[0]) && is_i64_part(parts[1]) {
            Ok(VarModel::Random { min: num_val(parts[0]) as i64, max: num_val(parts[1]) as i64 })
        } else {
            Err(TemplateError::InvalidNumber)
        }
    } else if d == "uuid"@ {
        Ok(VarModel::Uuid)
    } else if d.len() >= 10 && d.subrange(0, 10) == "timestamp:"@ {
        spec_parse_ts_format(d.subrange(10, d.len() as int))
    } else if d.len() >= 4 && d.subrange(0, 4) == "now:"@ {
        spec_parse_ts_format(d.subrange(4, d.len() as int))
    } else if d == "timestamp"@ || d == "now"@ {
        Ok(VarModel::Timestamp { format: TimestampFormat::Unix })
    } else if d.len() >= 9 && d.subrange(0, 9) == "sequence:"@ {
        let num = d.subrange(9, d.len() as int);
        if is_u64_num(num) {
            Ok(VarModel::Sequence { start: num_val(num) as u64 })
        } else {
            Err(TemplateError::InvalidNumber)
        }
    } else if d.len() >= 7 && d.subrange(0, 7) == "choice:"@ {
        Ok(VarModel::Choice { options: spec_split(d.subrange(7, d.len() as int), ',', 0) })
    } else {
        Ok(VarModel::Static { value: d })
    }
}

pub open spec fn spec_parse_ts_format(f: Seq<char>) -> Result<VarModel, TemplateError> {
    if f == "unix"@ {
        Ok(VarModel::Timestamp { format: TimestampFormat::Unix })
    } else if f == "unix_ms"@ {
        Ok(VarModel::Timestamp { format: TimestampFormat::UnixMs })
    } else if f == "rfc3339"@ {
        Ok(VarModel::Timestamp { format: TimestampFormat::Rfc3339 })
    } else if f == "iso8601"@ {
        Ok(VarModel::Timestamp { format: TimestampFormat::Iso8601 })
    } else if f == "date"@ {
        Ok(VarModel::Timestamp { format: TimestampFormat::Date })
    } else if f == "time"@ {
        Ok(VarModel::Timestamp { format: TimestampFormat::Time })
    } else {
        Err(TemplateError::UnknownTimestampFormat)
    }
}

/// Parses the decimal in `v[from..to]` (optional `+`), capped at `cap`.
fn parse_capped(v: &Vec<char>, from: usize, to: usize, cap: u64) -> (r: Option<u64>)
    requires
        from <= to <= v@.len(),
    ensures
        ({
            let s = v@.subrange(from as int, to as int);
            &&& (r is Some) <==> (is_u64_num(s) && num_val(s) <= cap)
            &&& (r matches Some(x) ==> x == num_val(s))
        }),
{
    let ghost s = v@.subrange(from as int, to as int);
    let start: usize = if to > from && v[from] == '+' {
        from + 1
    } else {
        from
    };
    proof {
        if start == from + 1 {
            assert(s.drop_first() =~= v@.subrange(from + 1, to as int));
        }
    }
    match parse_u64_range(v, start, to) {
        Some(x) => {
            if x <= cap {
                Some(x)
            } else {
                None
            }
        },
        None => None,
    }
}

/// Splits the characters `v[from..to]` at `sep`.
fn split_chars(v: &Vec<char>, from: usize, to: usize, sep: char) -> (r: Vec<String>)
    requires
        from <= to <= v@.len(),
    ensures
        r@.map_values(|o: String| o@) == spec_split(v@.subrange(from as int, to as int), sep, 0),
        r@.len() > 0,
{
    let ghost s = v@.subrange(from as int, to as int);
    let mut out: Vec<String> = Vec::new();
    let mut i: usize = from;
    proof {
        assert(out@.map_values(|o: String| o@) =~= Seq::<Seq<char>>::empty());
        assert(Seq::<Seq<char>>::empty() + spec_split(s, sep, 0) =~= spec_split(s, sep, 0));
    }
    loop
        invariant
            from <= i <= to <= v@.len(),
            s == v@.subrange(from as int, to as int),
            spec_split(s, sep, 0) == out@.map_values(|o: String| o@) + spec_split(
                s,
                sep,
                i - from,
            ),
            out@.len() == 0 ==> i == from,
        ensures
            out@.map_values(|o: String| o@) == spec_split(s, sep, 0),
            out@.len() > 0,
        decreases to - i,
    {
        let ghost acc = out@.map_values(|o: String| o@);
        let mut e: usize = i;
        while e < to && v[e] != sep
            invariant
                from <= i <= e <= to <= v@.len(),
                s == v@.subrange(from as int, to as int),
                crate::curl::find_char(s, sep, i - from) == crate::curl::find_char(s, sep, e
                    - from),
            decreases to - e,
        {
            proof {
                assert(s[e - from] == v@[e as int]);
            }
            e = e + 1;
        }
        proof {
            if e < to {
                assert(s[e - from] == v@[e as int]);
            }
            assert(crate::curl::find_char(s, sep, e - from) == e - from);
        }
        let piece = string_from_chars(&chars_range(v, i, e));
        out.push(piece);
        proof {
            assert(v@.subrange(i as int, e as int) =~= s.subrange(i - from, e - from));
            assert(out@.map_values(|o: String| o@) =~= acc.push(s.subrange(i - from, e - from)));
            assert(acc.push(s.subrange(i - from, e - from)) + spec_split(s, sep, e + 1 - from)
                =~= acc + (seq![s.subrange(i - from, e - from)] + spec_split(
                s,
                sep,
                e + 1 - from,
            )));
        }
        if e == to {
            proof {
                assert(spec_split(s, sep, e + 1 - from) =~= Seq::<Seq<char>>::empty());
                assert(out@.map_values(|o: String| o@) + Seq::<Seq<char>>::empty()
                    =~= out@.map_values(|o: String| o@));
            }
            return out;
        }
        i = e + 1;
    }
}

/// Parses one variable definition, exactly as `spec_parse_vardef`
/// describes.
pub fn parse_variable_definition(def: &str) -> (r: Result<VariableType, TemplateError>)
    ensures
        ({
            let m = spec_parse_vardef(def@);
            &&& (r matches Ok(v) ==> m matches Ok(vm) && var_model(v) == vm)
            &&& (r matches Err(e) ==> m matches Err(e2) && e == e2)
        }),
{
    let cs = chars_of(def);
    let n = cs.len();
    proof {
        reveal_strlit("random:");
        reveal_strlit("uuid");
        reveal_strlit("timestamp:");
        reveal_strlit("now:");
        reveal_strlit("timestamp");
        reveal_strlit("now");
        reveal_strlit("sequence:");
        reveal_strlit("choice:");
    }
    if starts_with_chars(&cs, "random:") {
        let ghost range = def@.subrange(7, def@.len() as int);
        let mut q: usize = 7;
        while q < n && cs[q] != '-'
            invariant
                7 <= q <= n,
                n == cs@.len(),
                cs@ == def@,
                range == def@.subrange(7, def@.len() as int),
                crate::curl::find_char(range, '-', 0) == crate::curl::find_char(range, '-', q - 7),
            decreases n - q,
        {
            proof {
                assert(range[q - 7] == def@[q as int]);
            }
            q = q + 1;
        }
        proof {
            if q < n {
                assert(range[q - 7] == def@[q as int]);
            }
            assert(crate::curl::find_char(range, '-', q - 7) == q - 7);
        }
        if q == n {
            // no dash at all: one part only
            proof {
                lemma_split_parts(range, '-');
            }
            return Err(TemplateError::InvalidRandomRange);
        }
        // a second dash means more than two parts
        let mut q2: usize = q + 1;
        while q2 < n && cs[q2] != '-'
            invariant
                7 <= q < n,
                q + 1 <= q2 <= n,
                n == cs@.len(),
                cs@ == def@,
                range == def@.subrange(7, def@.len() as int),
                crate::curl::find_char(range, '-', q + 1 - 7) == crate::curl::find_char(
                    range,
                    '-',
                    q2 - 7,
                ),
            decreases n - q2,
        {
            proof {
                assert(range[q2 - 7] == def@[q2 as int]);
            }
            q2 = q2 + 1;
        }
        proof {
            if q2 < n {
                assert(range[q2 - 7] == def@[q2 as int]);
            }
            assert(crate::curl::find_char(range, '-', q2 - 7) == q2 - 7);
        }
        if q2 < n {
            proof {
                lemma_split_parts(range, '-');
            }
            return Err(TemplateError::InvalidRandomRange);
        }
        proof {
            lemma_split_parts(range, '-');
            assert(def@.subrange(7, q as int) =~= range.subrange(0, q - 7));
            assert(def@.subrange(q + 1, n as int) =~= range.subrange(
                q + 1 - 7,
                range.len() as int,
            ));
        }
        let min = parse_capped(&cs, 7, q, 0x7fff_ffff_ffff_ffff);
        let max = parse_capped(&cs, q + 1, n, 0x7fff_ffff_ffff_ffff);
        match (min, max) {
            (Some(a), Some(b)) => Ok(VariableType::Random { min: a as i64, max: b as i64 }),
            _ => Err(TemplateError::InvalidNumber),
        }
    } else if str_eq(def, "uuid") {
        Ok(VariableType::Uuid)
    } else if starts_with_chars(&cs, "timestamp:") {
        let f = string_from_chars(&chars_range(&cs, 10, n));
        parse_timestamp_format(f.as_str())
    } else if starts_with_chars(&cs, "now:") {
        let f = string_from_chars(&chars_range(&cs, 4, n));
        parse_timestamp_format(f.as_str())
    } else if str_eq(def, "timestamp") || str_eq(def, "now") {
        Ok(VariableType::Timestamp { format: TimestampFormat::Unix })
    } else if starts_with_chars(&cs, "sequence:") {
        match parse_capped(&cs, 9, n, u64::MAX) {
            Some(start) => Ok(VariableType::Sequence { start }),
            None => Err(TemplateError::InvalidNumber),
        }
    } else if starts_with_chars(&cs, "choice:") {
        let options = split_chars(&cs, 7, n, ',');
        Ok(VariableType::Choice { options })
    } else {
        Ok(VariableType::Static { value: def.to_owned() })
    }
}

/// Splitting at the first separator: no separator gives one part, one
/// separator two parts, and a separator after the first gives more.
proof fn lemma_split_parts(s: Seq<char>, c: char)
    ensures
        ({
            let q = crate::curl::find_char(s, c, 0);
            &&& (q == s.len() ==> spec_split(s, c, 0) == seq![s])
            &&& (q < s.len() ==> spec_split(s, c, 0) == seq![s.subrange(0, q)] + spec_split(
                s,
                c,
                q + 1,
            ))
            &&& (q < s.len() && crate::curl::find_char(s, c, q + 1) == s.len() ==> spec_split(
                s,
                c,
                0,
            ) == seq![s.subrange(0, q), s.subrange(q + 1, s.len() as int)])
            &&& (q < s.len() && crate::curl::find_char(s, c, q + 1) < s.len() ==> spec_split(
                s,
                c,
                0,
            ).len() >= 3)
        }),
{
    let q = crate::curl::find_char(s, c, 0);
    crate::curl::lemma_find_char_range(s, c, 0);
    if q == s.len() {
        assert(s.subrange(0, q) =~= s);
        assert(spec_split(s, c, q + 1) =~= Seq::<Seq<char>>::empty());
        assert(seq![s] + Seq::<Seq<char>>::empty() =~= seq![s]);
    } else {
        let q2 = crate::curl::find_char(s, c, q + 1);
        crate::curl::lemma_find_char_range(s, c, q + 1);
        if q2 == s.len() {
            assert(spec_split(s, c, q2 + 1) =~= Seq::<Seq<char>>::empty());
            assert(spec_split(s, c, q + 1) == seq![s.subrange(q + 1, q2)] + spec_split(
                s,
                c,
                q2 + 1,
            ));
            assert(seq![s.subrange(0, q)] + (seq![s.subrange(q + 1, q2)] + spec_split(
                s,
                c,
                q2 + 1,
            )) =~= seq![s.subrange(0, q), s.subrange(q + 1, s.len() as int)]);
        } else {
            assert(spec_split(s, c, q2 + 1).len() >= 1) by {
                crate::curl::lemma_find_char_range(s, c, q2 + 1);
                assert(spec_split(s, c, q2 + 1) == seq![
                    s.subrange(q2 + 1, crate::curl::find_char(s, c, q2 + 1)),
                ] + spec_split(s, c, crate::curl::find_char(s, c, q2 + 1) + 1));
            }
        }
    }
}

// ---- generators ----

/// Relies on rand's `gen_range` over the thread-local generator: a uniform
/// value in the inclusive range.  `gen_range` panics on an empty range, so
/// a non-empty one is required.
#[verifier::external_body]
pub(crate) fn rand_i64_in(min: i64, max: i64) -> (r: i64)
    requires
        min <= max,
    ensures
        min <= r <= max,
{
    rand::Rng::gen_range(&mut rand::thread_rng(), min..=max)
}

/// Relies on rand's `gen_range` over the thread-local generator: a uniform
/// index below `n`.  `gen_range` panics on an empty range, so `n > 0` is
/// required.
#[verifier::external_body]
pub(crate) fn rand_index(n: usize) -> (r: usize)
    requires
        n > 0,
    ensures
        r < n,
{
    rand::Rng::gen_range(&mut rand::thread_rng(), 0..n)
}

/// Relies on `uuid::Uuid::new_v4` and its hyphenated rendering: a fresh
/// random UUID, written as exactly 36 characters.
#[verifier::external_body]
fn uuid_string() -> (r: String)
    ensures
        r@.len() == 36,
{
    uuid::Uuid::new_v4().to_string()
}

/// Relies on `chrono::Utc::now` and `DateTime::timestamp`: the current
/// time as whole seconds since the epoch; nothing is assumed of the value.
#[verifier::external_body]
fn now_unix_seconds() -> i64 {
    chrono::Utc::now().timestamp()
}

/// Relies on `chrono::Utc::now` and `DateTime::timestamp_millis`: the
/// current time in milliseconds since the epoch.
#[verifier::external_body]
fn now_unix_millis() -> i64 {
    chrono::Utc::now().timestamp_millis()
}

/// Relies on `chrono::Utc::now` and `DateTime::to_rfc3339`: the current
/// time as RFC 3339 text.
#[verifier::external_body]
fn now_rfc3339() -> String {
    chrono::Utc::now().to_rfc3339()
}

/// Relies on `chrono::Utc::now` and `format` with `%Y-%m-%d`: the current
/// calendar date text.
#[verifier::external_body]
fn now_date_string() -> String {
    chrono::Utc::now().format("%Y-%m-%d").to_string()
}

/// Relies on `chrono::Utc::now` and `format` with `%H:%M:%S`: the current
/// clock time text.
#[verifier::external_body]
fn now_time_string() -> String {
    chrono::Utc::now().format("%H:%M:%S").to_string()
}

/// Whether a kind can generate at all: a random range must not be empty,
/// a choice must have options.
pub open spec fn gen_ok(vm: VarModel) -> bool {
    match vm {
        VarModel::Random { min, max } => min <= max,
        VarModel::Choice { options } => options.len() > 0,
        _ => true,
    }
}

/// What holds of every generated value: a random number reads as a decimal
/// in its range, a UUID has 36 characters, a sequence reads as its start, a
/// choice is one of its options, a literal is itself.  Of a timestamp only
/// the clock knows more.
pub open spec fn valid_gen(vm: VarModel, out: Seq<char>) -> bool {
    match vm {
        VarModel::Random { min, max } => exists|v: i64|
            min <= v <= max && out == dec_signed(v as int),
        VarModel::Uuid => out.len() == 36,
        VarModel::Timestamp { format } => true,
        VarModel::Sequence { start } => out == dec_digits(start as int),
        VarModel::Choice { options } => exists|k: int| 0 <= k < options.len() && out == options[k],
        VarModel::Static { value } => out == value,
    }
}

/// Generates one value of kind `v`, or nothing when the kind cannot
/// generate.
fn generate_value(v: &VariableType) -> (r: Option<String>)
    ensures
        (r is Some) <==> gen_ok(var_model(*v)),
        (r matches Some(s) ==> valid_gen(var_model(*v), s@)),
{
    match v {
        VariableType::Random { min, max } => {
            if *min <= *max {
                let value = rand_i64_in(*min, *max);
                let s = i64_to_string(value);
                proof {
                    assert(valid_gen(var_model(*v), s@));
                }
                Some(s)
            } else {
                None
            }
        },
        VariableType::Uuid => Some(uuid_string()),
        VariableType::Timestamp { format } => {
            let s = match format {
                TimestampFormat::Unix => i64_to_string(now_unix_seconds()),
                TimestampFormat::UnixMs => i64_to_string(now_unix_millis()),
                TimestampFormat::Rfc3339 => now_rfc3339(),
                TimestampFormat::Iso8601 => now_rfc3339(),
                TimestampFormat::Date => now_date_string(),
                TimestampFormat::Time => now_time_string(),
            };
            Some(s)
        },
        VariableType::Sequence { start } => Some(u64_to_string(*start)),
        VariableType::Choice { options } => {
            if options.len() > 0 {
                let k = rand_index(options.len());
                let s = options[k].clone();
                proof {
                    assert(options@.map_values(|o: String| o@)[k as int] == s@);
                }
                Some(s)
            } else {
                None
            }
        },
        VariableType::Static { value } => Some(value.clone()),
    }
}

// ---- the engine ----

/// The views of the variable bindings, in definition order.
pub open spec fn vars_view(vs: Seq<(String, VariableType)>) -> Seq<(Seq<char>, VarModel)> {
    vs.map_values(|p: (String, VariableType)| (p.0@, var_model(p.1)))
}

/// The binding the name resolves to: the first entry carrying it.
pub open spec fn lookup_var(vs: Seq<(Seq<char>, VarModel)>, name: Seq<char>) -> Option<VarModel>
    decreases vs.len(),
{
    if vs.len() == 0 {
        None
    } else if vs[0].0 == name {
        Some(vs[0].1)
    } else {
        lookup_var(vs.drop_first(), name)
    }
}

/// Updating the first entry of a name rebinds that name and nothing else.
proof fn lemma_lookup_update(vs: Seq<(Seq<char>, VarModel)>, idx: int, e: (Seq<char>, VarModel))
    requires
        0 <= idx < vs.len(),
        vs[idx].0 == e.0,
        forall|j: int| 0 <= j < idx ==> (#[trigger] vs[j]).0 != e.0,
    ensures
        forall|n: Seq<char>|
            #[trigger] lookup_var(vs.update(idx, e), n) == if n == e.0 {
                Some(e.1)
            } else {
                lookup_var(vs, n)
            },
    decreases vs.len(),
{
    let u = vs.update(idx, e);
    if idx == 0 {
        assert(u.drop_first() =~= vs.drop_first());
        assert forall|n: Seq<char>|
            #[trigger] lookup_var(u, n) == (if n == e.0 {
                Some(e.1)
            } else {
                lookup_var(vs, n)
            }) by {
            assert(u[0] == e);
            assert(lookup_var(u, n) == (if u[0].0 == n {
                Some(u[0].1)
            } else {
                lookup_var(u.drop_first(), n)
            }));
            assert(lookup_var(vs, n) == (if vs[0].0 == n {
                Some(vs[0].1)
            } else {
                lookup_var(vs.drop_first(), n)
            }));
        }
    } else {
        let t = vs.drop_first();
        assert(forall|j: int| 0 <= j < idx - 1 ==> t[j] == #[trigger] vs[j + 1]);
        lemma_lookup_update(t, idx - 1, e);
        assert(u.drop_first() =~= t.update(idx - 1, e));
        assert forall|n: Seq<char>|
            #[trigger] lookup_var(u, n) == (if n == e.0 {
                Some(e.1)
            } else {
                lookup_var(vs, n)
            }) by {
            assert(u[0] == vs[0]);
            assert(vs[0].0 != e.0);
            assert(lookup_var(u, n) == (if u[0].0 == n {
                Some(u[0].1)
            } else {
                lookup_var(u.drop_first(), n)
            }));
            assert(lookup_var(vs, n) == (if vs[0].0 == n {
                Some(vs[0].1)
            } else {
                lookup_var(vs.drop_first(), n)
            }));
        }
    }
}

/// Appending a fresh name binds it and nothing else.
proof fn lemma_lookup_push(vs: Seq<(Seq<char>, VarModel)>, e: (Seq<char>, VarModel))
    requires
        forall|j: int| 0 <= j < vs.len() ==> (#[trigger] vs[j]).0 != e.0,
    ensures
        forall|n: Seq<char>|
            #[trigger] lookup_var(vs.push(e), n) == if n == e.0 {
                Some(e.1)
            } else {
                lookup_var(vs, n)
            },
    decreases vs.len(),
{
    let u = vs.push(e);
    if vs.len() == 0 {
        assert forall|n: Seq<char>|
            #[trigger] lookup_var(u, n) == (if n == e.0 {
                Some(e.1)
            } else {
                lookup_var(vs, n)
            }) by {
            assert(u[0] == e);
            assert(u.drop_first() =~= Seq::<(Seq<char>, VarModel)>::empty());
            assert(lookup_var(u, n) == (if u[0].0 == n {
                Some(u[0].1)
            } else {
                lookup_var(u.drop_first(), n)
            }));
        }
    } else {
        let t = vs.drop_first();
        assert(forall|j: int| 0 <= j < t.len() ==> t[j] == #[trigger] vs[j + 1]);
        lemma_lookup_push(t, e);
        assert(u.drop_first() =~= t.push(e));
        assert forall|n: Seq<char>|
            #[trigger] lookup_var(u, n) == (if n == e.0 {
                Some(e.1)
            } else {
                lookup_var(vs, n)
            }) by {
            assert(u[0] == vs[0]);
            assert(lookup_var(u, n) == (if u[0].0 == n {
                Some(u[0].1)
            } else {
                lookup_var(u.drop_first(), n)
            }));
            assert(lookup_var(vs, n) == (if vs[0].0 == n {
                Some(vs[0].1)
            } else {
                lookup_var(vs.drop_first(), n)
            }));
        }
    }
}

/// The first entry of a name carries the looked-up binding.
proof fn lemma_lookup_at(vs: Seq<(Seq<char>, VarModel)>, idx: int)
    requires
        0 <= idx < vs.len(),
        forall|j: int| 0 <= j < idx ==> (#[trigger] vs[j]).0 != vs[idx].0,
    ensures
        lookup_var(vs, vs[idx].0) == Some(vs[idx].1),
    decreases idx,
{
    if idx > 0 {
        let t = vs.drop_first();
        assert(forall|j: int| 0 <= j < idx - 1 ==> t[j] == #[trigger] vs[j + 1]);
        lemma_lookup_at(t, idx - 1);
    }
}

/// A name no entry carries looks up to nothing.
proof fn lemma_lookup_missing(vs: Seq<(Seq<char>, VarModel)>, name: Seq<char>)
    requires
        forall|j: int| 0 <= j < vs.len() ==> (#[trigger] vs[j]).0 != name,
    ensures
        lookup_var(vs, name) is None,
    decreases vs.len(),
{
    if vs.len() > 0 {
        let t = vs.drop_first();
        assert(forall|j: int| 0 <= j < t.len() ==> t[j] == #[trigger] vs[j + 1]);
        lemma_lookup_missing(t, name);
    }
}

/// The variable table: named generator bindings applied to `{{name}}`
/// placeholders.
pub struct TemplateEngine {
    pub variables: Vec<(String, VariableType)>,
}

impl TemplateEngine {
    /// The bindings as the contracts see them.
    pub open spec fn view_vars(&self) -> Seq<(Seq<char>, VarModel)> {
        vars_view(self.variables@)
    }

    /// An engine with no bindings.
    pub fn new() -> (e: TemplateEngine)
        ensures
            e.view_vars().len() == 0,
    {
        TemplateEngine { variables: Vec::new() }
    }

    /// Parses `definition` and binds it to `name`, replacing an earlier
    /// binding of the same name; a definition that does not parse is
    /// rejected and changes nothing.
    pub fn add_variable(&mut self, name: String, definition: &str) -> (r: Result<
        (),
        TemplateError,
    >)
        ensures
            (r is Ok <==> spec_parse_vardef(definition@) is Ok),
            (r matches Err(e) ==> spec_parse_vardef(definition@) == Result::<
                VarModel,
                TemplateError,
            >::Err(e) && *final(self) == *old(self)),
            r is Ok ==> forall|n: Seq<char>|
                #[trigger] lookup_var(final(self).view_vars(), n) == (if n == name@ {
                    match spec_parse_vardef(definition@) {
                        Ok(vm) => Some(vm),
                        Err(_) => None,
                    }
                } else {
                    lookup_var(old(self).view_vars(), n)
                }),
    {
        let vt = match parse_variable_definition(definition) {
            Ok(vt) => vt,
            Err(e) => {
                return Err(e);
            },
        };
        let ghost vv = self.view_vars();
        proof {
            assert(vv.len() == self.variables@.len());
            assert(forall|j: int|
                0 <= j < vv.len() ==> (#[trigger] vv[j]) == (
                    self.variables@[j].0@,
                    var_model(self.variables@[j].1),
                ));
        }
        let n = self.variables.len();
        let mut i: usize = 0;
        while i < n
            invariant
                n == self.variables@.len(),
                i <= n,
                self.variables@ == old(self).variables@,
                spec_parse_vardef(definition@) == Result::<VarModel, TemplateError>::Ok(
                    var_model(vt),
                ),
                vv == vars_view(self.variables@),
                forall|j: int|
                    0 <= j < vv.len() ==> (#[trigger] vv[j]) == (
                        self.variables@[j].0@,
                        var_model(self.variables@[j].1),
                    ),
                forall|j: int| 0 <= j < i ==> (#[trigger] vv[j]).0 != name@,
            decreases n - i,
        {
            if str_eq(self.variables[i].0.as_str(), name.as_str()) {
                let ghost e = (name@, var_model(vt));
                proof {
                    lemma_lookup_update(vv, i as int, e);
                }
                self.variables.set(i, (name, vt));
                proof {
                    assert(vars_view(self.variables@) =~= vv.update(i as int, e));
                }
                return Ok(());
            }
            i = i + 1;
        }
        let ghost e = (name@, var_model(vt));
        proof {
            lemma_lookup_push(vv, e);
        }
        self.variables.push((name, vt));
        proof {
            assert(vars_view(self.variables@) =~= vv.push(e));
        }
        Ok(())
    }
}

// ---- placeholder scanning and rendering ----

/// Whether a placeholder `{{name}}` opens at `p`: two braces, then at
/// least one character other than `}`, then two closing braces.
pub open spec fn is_match_at(s: Seq<char>, p: int) -> bool {
    &&& 0 <= p
    &&& p + 1 < s.len()
    &&& s[p] == '{'
    &&& s[p + 1] == '{'
    &&& ({
        let q = crate::curl::find_char(s, '}', p + 2);
        q > p + 2 && q + 1 < s.len() && s[q + 1] == '}'
    })
}

/// Index of the first closing brace of the placeholder at `p`.
pub open spec fn match_close(s: Seq<char>, p: int) -> int {
    crate::curl::find_char(s, '}', p + 2)
}

/// The name between the braces of the placeholder at `p`.
pub open spec fn match_name(s: Seq<char>, p: int) -> Seq<char> {
    s.subrange(p + 2, match_close(s, p))
}

/// Index just after the placeholder at `p`.
pub open spec fn match_end(s: Seq<char>, p: int) -> int {
    match_close(s, p) + 2
}

/// Position of the first placeholder at or after `p`, or the length.
pub open spec fn next_match(s: Seq<char>, p: int) -> int
    decreases s.len() - p,
{
    if p < 0 || p >= s.len() {
        s.len() as int
    } else if is_match_at(s, p) {
        p
    } else {
        next_match(s, p + 1)
    }
}

/// Whether any placeholder occurs in `s`.
pub open spec fn has_placeholder(s: Seq<char>) -> bool {
    next_match(s, 0) < s.len()
}

pub proof fn lemma_next_match_range(s: Seq<char>, p: int)
    requires
        0 <= p <= s.len(),
    ensures
        p <= next_match(s, p) <= s.len(),
        next_match(s, p) < s.len() ==> is_match_at(s, next_match(s, p)),
    decreases s.len() - p,
{
    if p < s.len() && !is_match_at(s, p) {
        lemma_next_match_range(s, p + 1);
    }
}

/// A matched placeholder ends within the text, after its start.
pub proof fn lemma_match_end_range(s: Seq<char>, p: int)
    requires
        is_match_at(s, p),
    ensures
        p + 4 <= match_end(s, p) <= s.len(),
{
}

/// The name a placeholder replacement answers for, as literal text.
pub open spec fn placeholder_text(name: Seq<char>) -> Seq<char> {
    "{{"@ + name + "}}"@
}

/// The kind a placeholder name evaluates to: a defined variable first, else
/// an inline generator form; a plain unknown name evaluates to nothing.
pub open spec fn spec_eval(vars: Seq<(Seq<char>, VarModel)>, name: Seq<char>) -> Option<VarModel> {
    match lookup_var(vars, name) {
        Some(vm) => Some(vm),
        None => match spec_parse_vardef(name) {
            Ok(vm) => if vm is Static {
                None
            } else {
                Some(vm)
            },
            Err(_) => None,
        },
    }
}

/// What any replacement of `{{name}}` satisfies: a value of the evaluated
/// kind, or the placeholder itself left untouched when the name is unknown
/// or its kind cannot generate.
pub open spec fn valid_replacement(
    vars: Seq<(Seq<char>, VarModel)>,
    name: Seq<char>,
    out: Seq<char>,
) -> bool {
    match spec_eval(vars, name) {
        Some(vm) => if gen_ok(vm) {
            valid_gen(vm, out)
        } else {
            out == placeholder_text(name)
        },
        None => out == placeholder_text(name),
    }
}

/// How an output renders the input from position `p` on: text up to the
/// next placeholder is copied, the placeholder becomes a valid replacement,
/// and the rest renders recursively.
pub open spec fn renders(
    vars: Seq<(Seq<char>, VarModel)>,
    s: Seq<char>,
    p: int,
    out: Seq<char>,
) -> bool
    decreases s.len() - p,
    when 0 <= p <= s.len()
    via renders_decreases
{
    let q = next_match(s, p);
    if q == s.len() {
        out == s.subrange(p, s.len() as int)
    } else {
        exists|rep: Seq<char>, rest: Seq<char>|
            {
                &&& valid_replacement(vars, match_name(s, q), rep)
                &&& renders(vars, s, match_end(s, q), rest)
                &&& out == s.subrange(p, q) + rep + rest
            }
    }
}

#[via_fn]
proof fn renders_decreases(
    vars: Seq<(Seq<char>, VarModel)>,
    s: Seq<char>,
    p: int,
    out: Seq<char>,
) {
    if 0 <= p <= s.len() {
        lemma_next_match_range(s, p);
        let q = next_match(s, p);
        if q < s.len() {
            lemma_match_end_range(s, q);
        }
    }
}

/// `{{name}}`, the untouched placeholder text.
fn placeholder_string(name: &str) -> (r: String)
    ensures
        r@ == placeholder_text(name@),
{
    let mut s: String = "{{".to_owned();
    s.append(name);
    s.append("}}");
    s
}

impl TemplateEngine {
    /// The replacement for one placeholder name: a generated value of the
    /// kind the name evaluates to, or the placeholder itself.
    fn evaluate(&self, name: &str) -> (r: String)
        ensures
            valid_replacement(self.view_vars(), name@, r@),
    {
        let ghost vv = self.view_vars();
        proof {
            assert(vv.len() == self.variables@.len());
            assert(forall|j: int|
                0 <= j < vv.len() ==> (#[trigger] vv[j]) == (
                    self.variables@[j].0@,
                    var_model(self.variables@[j].1),
                ));
        }
        let n = self.variables.len();
        let mut i: usize = 0;
        while i < n
            invariant
                n == self.variables@.len(),
                i <= n,
                vv == self.view_vars(),
                forall|j: int|
                    0 <= j < vv.len() ==> (#[trigger] vv[j]) == (
                        self.variables@[j].0@,
                        var_model(self.variables@[j].1),
                    ),
                forall|j: int| 0 <= j < i ==> (#[trigger] vv[j]).0 != name@,
            decreases n - i,
        {
            if str_eq(self.variables[i].0.as_str(), name) {
                proof {
                    lemma_lookup_at(vv, i as int);
                }
                match generate_value(&self.variables[i].1) {
                    Some(s) => {
                        return s;
                    },
                    None => {
                        return placeholder_string(name);
                    },
                }
            }
            i = i + 1;
        }
        proof {
            lemma_lookup_missing(vv, name@);
        }
        match parse_variable_definition(name) {
            Ok(vt) => {
                if matches!(vt, VariableType::Static { .. }) {
                    placeholder_string(name)
                } else {
                    match generate_value(&vt) {
                        Some(s) => s,
                        None => placeholder_string(name),
                    }
                }
            },
            Err(_) => placeholder_string(name),
        }
    }

    /// Substitutes every `{{name}}` placeholder in `text`; text without
    /// placeholders passes through unchanged.
    pub fn process(&self, text: &str) -> (r: String)
        ensures
            renders(self.view_vars(), text@, 0, r@),
            !has_placeholder(text@) ==> r@ == text@,
    {
        let cs = chars_of(text);
        let r = self.process_from(&cs, 0);
        proof {
            if !has_placeholder(text@) {
                lemma_next_match_range(text@, 0);
                assert(r@ == text@.subrange(0, text@.len() as int));
                assert(text@.subrange(0, text@.len() as int) =~= text@);
            }
        }
        r
    }

    /// Renders the text from `pos` on.
    fn process_from(&self, cs: &Vec<char>, pos: usize) -> (r: String)
        requires
            pos <= cs@.len(),
        ensures
            renders(self.view_vars(), cs@, pos as int, r@),
        decreases cs@.len() - pos,
    {
        let n = cs.len();
        match match_from(cs, pos) {
            None => {
                proof {
                    lemma_next_match_range(cs@, pos as int);
                }
                string_from_chars(&chars_range(cs, pos, n))
            },
            Some((p, q)) => {
                proof {
                    lemma_next_match_range(cs@, pos as int);
                    lemma_match_end_range(cs@, p as int);
                }
                let name = string_from_chars(&chars_range(cs, p + 2, q));
                let rep = self.evaluate(name.as_str());
                let rest = self.process_from(cs, q + 2);
                let mut out = string_from_chars(&chars_range(cs, pos, p));
                out.append(rep.as_str());
                out.append(rest.as_str());
                proof {
                    assert(out@ == cs@.subrange(pos as int, p as int) + rep@ + rest@);
                    assert(renders(self.view_vars(), cs@, pos as int, out@));
                }
                out
            },
        }
    }
}

/// Position and first closing brace of the first placeholder at or after
/// `pos`, when one exists.
fn match_from(cs: &Vec<char>, pos: usize) -> (r: Option<(usize, usize)>)
    requires
        pos <= cs@.len(),
    ensures
        (r is None ==> next_match(cs@, pos as int) == cs@.len()),
        (r matches Some(pq) ==> pq.0 == next_match(cs@, pos as int) && is_match_at(
            cs@,
            pq.0 as int,
        ) && pq.1 == match_close(cs@, pq.0 as int)),
{
    let n = cs.len();
    let mut p: usize = pos;
    while p < n
        invariant
            pos <= p <= n,
            n == cs@.len(),
            next_match(cs@, pos as int) == next_match(cs@, p as int),
        decreases n - p,
    {
        if p + 1 < n && cs[p] == '{' && cs[p + 1] == '{' {
            let mut q: usize = p + 2;
            while q < n && cs[q] != '}'
                invariant
                    p + 2 <= q <= n,
                    n == cs@.len(),
                    crate::curl::find_char(cs@, '}', p + 2) == crate::curl::find_char(
                        cs@,
                        '}',
                        q as int,
                    ),
                decreases n - q,
            {
                q = q + 1;
            }
            proof {
                assert(crate::curl::find_char(cs@, '}', q as int) == q);
            }
            if q > p + 2 && q < n - 1 && cs[q + 1] == '}' {
                proof {
                    assert(is_match_at(cs@, p as int));
                    assert(next_match(cs@, p as int) == p);
                }
                return Some((p, q));
            }
            proof {
                assert(!is_match_at(cs@, p as int));
            }
        } else {
            proof {
                assert(!is_match_at(cs@, p as int));
            }
        }
        p = p + 1;
    }
    None
}

/// The name and definition of a `name=definition` variable option, split
/// at the first equals sign; nothing when there is none.
pub fn split_var_definition(arg: &str) -> (r: Option<(String, String)>)
    ensures
        ({
            let p = crate::curl::find_char(arg@, '=', 0);
            &&& (r is None <==> p == arg@.len())
            &&& (r matches Some(nv) ==> p < arg@.len() && nv.0@ == arg@.subrange(0, p) && nv.1@
                == arg@.subrange(p + 1, arg@.len() as int))
        }),
{
    let cs = chars_of(arg);
    let n = cs.len();
    let mut p: usize = 0;
    while p < n && cs[p] != '='
        invariant
            n == cs@.len(),
            cs@ == arg@,
            p <= n,
            crate::curl::find_char(arg@, '=', 0) == crate::curl::find_char(arg@, '=', p as int),
        decreases n - p,
    {
        p = p + 1;
    }
    proof {
        assert(crate::curl::find_char(arg@, '=', p as int) == p);
    }
    if p == n {
        return None;
    }
    let name = string_from_chars(&chars_range(&cs, 0, p));
    let definition = string_from_chars(&chars_range(&cs, p + 1, n));
    Some((name, definition))
}

/// Parses a timestamp format name, exactly as `spec_parse_ts_format`
/// describes.
pub fn parse_timestamp_format(format: &str) -> (r: Result<VariableType, TemplateError>)
    ensures
        ({
            let m = spec_parse_ts_format(format@);
            &&& (r matches Ok(v) ==> m matches Ok(vm) && var_model(v) == vm)
            &&& (r matches Err(e) ==> m matches Err(e2) && e == e2)
        }),
{
    if str_eq(format, "unix") {
        Ok(VariableType::Timestamp { format: TimestampFormat::Unix })
    } else if str_eq(format, "unix_ms") {
        Ok(VariableType::Timestamp { format: TimestampFormat::UnixMs })
    } else if str_eq(format, "rfc3339") {
        Ok(VariableType::Timestamp { format: TimestampFormat::Rfc3339 })
    } else if str_eq(format, "iso8601") {
        Ok(VariableType::Timestamp { format: TimestampFormat::Iso8601 })
    } else if str_eq(format, "date") {
        Ok(VariableType::Timestamp { format: TimestampFormat::Date })
    } else if str_eq(format, "time") {
        Ok(VariableType::Timestamp { format: TimestampFormat::Time })
    } else {
        Err(TemplateError::UnknownTimestampFormat)
    }
}

} // verus!
