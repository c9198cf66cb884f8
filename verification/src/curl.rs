//! The curl-command parser: a quote-aware tokenizer and a fold over the
//! recognized options, producing a request template.
//!
//! The contracts mirror the grammar with two spec state machines:
//! `spec_tokenize` for the character-level tokenizer and `parse_tokens` for
//! the option fold.

use base64::Engine;
use vstd::prelude::*;
use vstd::string::StringSliceAdditionalSpecFns;

use crate::text::{
    chars_of, is_space, space, spec_trim, starts_with_chars, str_eq, string_from_chars,
    trim_chars,
};

verus! {

/// A curl command parse gone wrong.
#[derive(Clone, Copy, Debug, PartialEq, Eq, Structural)]
pub enum CurlError {
    /// The command names no URL.
    NoUrl,
    /// A file of commands yields no valid command.
    NoValidCommand,
}

impl CurlError {
    /// A short description, used as a report line.
    pub fn message(&self) -> (r: &'static str)
        ensures
            self is NoUrl ==> r@ == "No URL found in curl command"@,
            self is NoValidCommand ==> r@ == "No valid curl commands found in file"@,
    {
        match self {
            CurlError::NoUrl => "No URL found in curl command",
            CurlError::NoValidCommand => "No valid curl commands found in file",
        }
    }
}

/// One request template: method, URL, headers in insertion order with
/// unique names, and an optional body.
#[derive(Debug)]
pub struct CurlCommand {
    pub url: String,
    pub method: String,
    pub headers: Vec<(String, String)>,
    pub body: Option<String>,
}

/// The mathematical shape of a template.
pub struct CmdModel {
    pub url: Seq<char>,
    pub method: Seq<char>,
    pub headers: Seq<(Seq<char>, Seq<char>)>,
    pub body: Option<Seq<char>>,
}

/// The headers of a command, as pairs of character sequences.
pub open spec fn headers_view(hs: Seq<(String, String)>) -> Seq<(Seq<char>, Seq<char>)> {
    hs.map_values(|p: (String, String)| (p.0@, p.1@))
}

/// The mathematical shape of a concrete command.
pub open spec fn cmd_model_of(c: CurlCommand) -> CmdModel {
    CmdModel {
        url: c.url@,
        method: c.method@,
        headers: headers_view(c.headers@),
        body: match c.body {
            Some(b) => Some(b@),
            None => None,
        },
    }
}

impl CurlCommand {
    /// A GET of `url` with no headers and no body.
    pub fn new(url: String) -> (c: CurlCommand)
        ensures
            c.url@ == url@,
            c.method@ == "GET"@,
            c.headers@.len() == 0,
            c.body is None,
    {
        CurlCommand { url, method: "GET".to_owned(), headers: Vec::new(), body: None }
    }
}

// ---- header insertion ----

/// Insert or replace: the first entry named `k` takes the value `v`, or a
/// new entry is appended.
pub open spec fn spec_header_insert(
    hs: Seq<(Seq<char>, Seq<char>)>,
    k: Seq<char>,
    v: Seq<char>,
) -> Seq<(Seq<char>, Seq<char>)>
    decreases hs.len(),
{
    if hs.len() == 0 {
        seq![(k, v)]
    } else if hs[0].0 == k {
        seq![(k, v)] + hs.drop_first()
    } else {
        seq![hs[0]] + spec_header_insert(hs.drop_first(), k, v)
    }
}

/// When the first entry named `k` sits at `idx`, inserting updates it in
/// place.
proof fn lemma_header_insert_at(hs: Seq<(Seq<char>, Seq<char>)>, k: Seq<char>, v: Seq<char>, idx: int)
    requires
        0 <= idx < hs.len(),
        hs[idx].0 == k,
        forall|j: int| 0 <= j < idx ==> (#[trigger] hs[j]).0 != k,
    ensures
        spec_header_insert(hs, k, v) == hs.update(idx, (k, v)),
    decreases idx,
{
    if idx == 0 {
        assert(seq![(k, v)] + hs.drop_first() =~= hs.update(0, (k, v)));
    } else {
        let t = hs.drop_first();
        assert(forall|j: int| 0 <= j < idx - 1 ==> t[j] == #[trigger] hs[j + 1]);
        lemma_header_insert_at(t, k, v, idx - 1);
        assert(seq![hs[0]] + t.update(idx - 1, (k, v)) =~= hs.update(idx, (k, v)));
    }
}

/// When no entry is named `k`, inserting appends.
proof fn lemma_header_insert_missing(hs: Seq<(Seq<char>, Seq<char>)>, k: Seq<char>, v: Seq<char>)
    requires
        forall|j: int| 0 <= j < hs.len() ==> (#[trigger] hs[j]).0 != k,
    ensures
        spec_header_insert(hs, k, v) == hs.push((k, v)),
    decreases hs.len(),
{
    if hs.len() == 0 {
        assert(seq![(k, v)] =~= hs.push((k, v)));
    } else {
        let t = hs.drop_first();
        assert(forall|j: int| 0 <= j < t.len() ==> t[j] == #[trigger] hs[j + 1]);
        lemma_header_insert_missing(t, k, v);
        assert(seq![hs[0]] + t.push((k, v)) =~= hs.push((k, v)));
    }
}

/// Sets header `k` to `v`, replacing the first entry of that name or
/// appending a new one.
pub fn header_insert(hs: &mut Vec<(String, String)>, k: String, v: String)
    ensures
        headers_view(final(hs)@) == spec_header_insert(headers_view(old(hs)@), k@, v@),
{
    let ghost hv = headers_view(hs@);
    proof {
        assert(hv.len() == hs@.len());
        assert(forall|j: int| 0 <= j < hs@.len() ==> (#[trigger] hv[j]) == (hs@[j].0@, hs@[j].1@));
    }
    let n = hs.len();
    let mut i: usize = 0;
    while i < n
        invariant
            n == hs@.len(),
            i <= n,
            hs@ == old(hs)@,
            hv == headers_view(hs@),
            hv.len() == hs@.len(),
            forall|j: int| 0 <= j < hs@.len() ==> (#[trigger] hv[j]) == (hs@[j].0@, hs@[j].1@),
            forall|j: int| 0 <= j < i ==> (#[trigger] hv[j]).0 != k@,
        decreases n - i,
    {
        if str_eq(hs[i].0.as_str(), k.as_str()) {
            proof {
                lemma_header_insert_at(hv, k@, v@, i as int);
            }
            hs.set(i, (k, v));
            proof {
                assert(headers_view(hs@) =~= hv.update(i as int, (k@, v@)));
            }
            return ;
        }
        i = i + 1;
    }
    proof {
        lemma_header_insert_missing(hv, k@, v@);
    }
    hs.push((k, v));
    proof {
        assert(headers_view(hs@) =~= hv.push((k@, v@)));
    }
}

// ---- ASCII case mapping ----

pub const ASCII_UPPER: [char; 26] = [
    'A',
    'B',
    'C',
    'D',
    'E',
    'F',
    'G',
    'H',
    'I',
    'J',
    'K',
    'L',
    'M',
    'N',
    'O',
    'P',
    'Q',
    'R',
    'S',
    'T',
    'U',
    'V',
    'W',
    'X',
    'Y',
    'Z',
];

/// `c` with an ASCII lower-case letter mapped to its upper-case form.
pub open spec fn upper_char(c: char) -> char {
    if 97 <= c as int && c as int <= 122 {
        ASCII_UPPER[c as int - 97]
    } else {
        c
    }
}

/// The ASCII upper-case form of `s`.
pub open spec fn spec_ascii_upper(s: Seq<char>) -> Seq<char> {
    s.map_values(|c: char| upper_char(c))
}

/// Upper-cases the ASCII letters of `s`.
pub fn ascii_upper(s: &str) -> (r: String)
    ensures
        r@ == spec_ascii_upper(s@),
{
    let cs = chars_of(s);
    let mut out: Vec<char> = Vec::new();
    let mut i: usize = 0;
    while i < cs.len()
        invariant
            i <= cs@.len(),
            cs@ == s@,
            out@ == spec_ascii_upper(s@.subrange(0, i as int)),
        decreases cs@.len() - i,
    {
        let c = cs[i];
        if 'a' <= c && c <= 'z' {
            let code = (c as u32) - 97;
            out.push(ASCII_UPPER[code as usize]);
        } else {
            out.push(c);
        }
        i = i + 1;
        proof {
            assert(out@ =~= spec_ascii_upper(s@.subrange(0, i as int)));
        }
    }
    proof {
        assert(out@ =~= spec_ascii_upper(s@));
    }
    string_from_chars(&out)
}

// ---- the tokenizer ----

/// The tokenizer's running state: finished tokens, the token being built,
/// and the quoting and escaping flags.
pub struct TokState {
    pub tokens: Seq<Seq<char>>,
    pub current: Seq<char>,
    pub in_quote: bool,
    pub quote_char: char,
    pub escaped: bool,
}

pub open spec fn tok_init() -> TokState {
    TokState {
        tokens: Seq::empty(),
        current: Seq::empty(),
        in_quote: false,
        quote_char: ' ',
        escaped: false,
    }
}

/// One character of tokenizing: a backslash escapes the next character;
/// quotes toggle quoting; unquoted blanks end the current token.
pub open spec fn tok_step(st: TokState, ch: char) -> TokState {
    if st.escaped {
        TokState { current: st.current.push(ch), escaped: false, ..st }
    } else if ch == '\\' {
        TokState { escaped: true, ..st }
    } else if ch == '"' || ch == '\'' {
        if !st.in_quote {
            TokState { in_quote: true, quote_char: ch, ..st }
        } else if ch == st.quote_char {
            TokState { in_quote: false, ..st }
        } else {
            TokState { current: st.current.push(ch), ..st }
        }
    } else if is_space(ch) && !st.in_quote {
        if st.current.len() > 0 {
            TokState { tokens: st.tokens.push(st.current), current: Seq::empty(), ..st }
        } else {
            st
        }
    } else {
        TokState { current: st.current.push(ch), ..st }
    }
}

/// The tokenizer state after the first `n` characters of `s`.
pub open spec fn tok_run(s: Seq<char>, n: int) -> TokState
    decreases n,
{
    if n <= 0 {
        tok_init()
    } else {
        tok_step(tok_run(s, n - 1), s[n - 1])
    }
}

/// The tokens of `s`: the tokenizer's output with a last unterminated token
/// flushed.
pub open spec fn spec_tokenize(s: Seq<char>) -> Seq<Seq<char>> {
    let st = tok_run(s, s.len() as int);
    if st.current.len() > 0 {
        st.tokens.push(st.current)
    } else {
        st.tokens
    }
}

/// The token views of a token vector.
pub open spec fn tokens_view(ts: Seq<String>) -> Seq<Seq<char>> {
    ts.map_values(|t: String| t@)
}

/// Splits a command line into tokens, honouring single and double quotes
/// and backslash escapes.
pub fn tokenize_curl_command(cmd: &str) -> (r: Result<Vec<String>, CurlError>)
    ensures
        r is Ok,
        (r matches Ok(ts) ==> tokens_view(ts@) == spec_tokenize(cmd@)),
{
    let cs = chars_of(cmd);
    let n = cs.len();
    let mut tokens: Vec<String> = Vec::new();
    let mut current: Vec<char> = Vec::new();
    let mut in_quote: bool = false;
    let mut quote_char: char = ' ';
    let mut escaped: bool = false;
    let mut i: usize = 0;
    while i < n
        invariant
            n == cs@.len(),
            cs@ == cmd@,
            i <= n,
            ({
                let st = tok_run(cmd@, i as int);
                &&& tokens_view(tokens@) == st.tokens
                &&& current@ == st.current
                &&& in_quote == st.in_quote
                &&& quote_char == st.quote_char
                &&& escaped == st.escaped
            }),
        decreases n - i,
    {
        let ch = cs[i];
        let ghost st = tok_run(cmd@, i as int);
        proof {
            assert(tok_run(cmd@, i + 1) == tok_step(st, cmd@[i as int]));
        }
        if escaped {
            current.push(ch);
            escaped = false;
        } else if ch == '\\' {
            escaped = true;
        } else if ch == '"' || ch == '\'' {
            if !in_quote {
                in_quote = true;
                quote_char = ch;
            } else if ch == quote_char {
                in_quote = false;
            } else {
                current.push(ch);
            }
        } else if space(ch) && !in_quote {
            if current.len() > 0 {
                let tok = string_from_chars(&current);
                tokens.push(tok);
                current = Vec::new();
                proof {
                    assert(tokens_view(tokens@) =~= st.tokens.push(st.current));
                }
            }
        } else {
            current.push(ch);
        }
        i = i + 1;
    }
    if current.len() > 0 {
        let tok = string_from_chars(&current);
        tokens.push(tok);
        proof {
            assert(tokens_view(tokens@) =~= spec_tokenize(cmd@));
        }
    }
    Ok(tokens)
}

// ---- base64 for -u credentials ----

/// The base64 text of `bytes` under the standard alphabet with padding.
pub uninterp spec fn base64_of(bytes: Seq<u8>) -> Seq<char>;

/// Relies on base64's STANDARD engine: encodes the bytes of `s` in the
/// standard alphabet with padding, four characters per three bytes.
#[verifier::external_body]
fn base64_encode(s: &str) -> (r: String)
    ensures
        r@ == base64_of(s.spec_bytes()),
        r@.len() == 4 * ((s.spec_bytes().len() + 2) / 3),
{
    base64::engine::general_purpose::STANDARD.encode(s.as_bytes())
}

// ---- the option fold ----

/// Index of the first `c` at or after `i` in `s`, or the length.
pub open spec fn find_char(s: Seq<char>, c: char, i: int) -> int
    decreases s.len() - i,
{
    if i < 0 || i >= s.len() {
        s.len() as int
    } else if s[i] == c {
        i
    } else {
        find_char(s, c, i + 1)
    }
}

/// What a `Name: value` header argument does to the headers: nothing
/// without a colon, otherwise it sets the trimmed name to the trimmed
/// value.
pub open spec fn spec_parse_header_into(
    hs: Seq<(Seq<char>, Seq<char>)>,
    tok: Seq<char>,
) -> Seq<(Seq<char>, Seq<char>)> {
    let p = find_char(tok, ':', 0);
    if p == tok.len() {
        hs
    } else {
        spec_header_insert(
            hs,
            spec_trim(tok.subrange(0, p)),
            spec_trim(tok.subrange(p + 1, tok.len() as int)),
        )
    }
}

/// An empty template: GET, no URL, no headers, no body.
pub open spec fn parse_init() -> CmdModel {
    CmdModel { url: Seq::empty(), method: "GET"@, headers: Seq::empty(), body: None }
}

/// The option fold from token `i` on, starting from `m`: `-X` sets the
/// method upper-cased, `-H` parses a header, the data options set the body
/// (and turn a GET into a POST), `-u` sets basic authorization, `-A` and
/// `-e` set their headers, `--compressed` asks for encoded responses, and
/// the first bare token becomes the URL.
pub open spec fn parse_tokens(toks: Seq<Seq<char>>, i: int, m: CmdModel) -> CmdModel
    decreases toks.len() - i,
{
    if i < 0 || i >= toks.len() {
        m
    } else {
        let t = toks[i];
        if t == "-X"@ || t == "--request"@ {
            if i + 1 < toks.len() {
                parse_tokens(
                    toks,
                    i + 2,
                    (CmdModel { method: spec_ascii_upper(toks[i + 1]), ..m }),
                )
            } else {
                m
            }
        } else if t == "-H"@ || t == "--header"@ {
            if i + 1 < toks.len() {
                parse_tokens(
                    toks,
                    i + 2,
                    (CmdModel { headers: spec_parse_header_into(m.headers, toks[i + 1]), ..m }),
                )
            } else {
                m
            }
        } else if t == "-d"@ || t == "--data"@ || t == "--data-raw"@ || t == "--data-binary"@ || t
            == "--data-urlencode"@ {
            if i + 1 < toks.len() {
                parse_tokens(
                    toks,
                    i + 2,
                    (CmdModel {
                        body: Some(toks[i + 1]),
                        method: if m.method == "GET"@ {
                            "POST"@
                        } else {
                            m.method
                        },
                        ..m
                    }),
                )
            } else {
                m
            }
        } else if t == "-u"@ || t == "--user"@ {
            if i + 1 < toks.len() {
                parse_tokens(
                    toks,
                    i + 2,
                    (CmdModel {
                        headers: spec_header_insert(
                            m.headers,
                            "Authorization"@,
                            "Basic "@ + base64_of(vstd::utf8::encode_utf8(toks[i + 1])),
                        ),
                        ..m
                    }),
                )
            } else {
                m
            }
        } else if t == "-A"@ || t == "--user-agent"@ {
            if i + 1 < toks.len() {
                parse_tokens(
                    toks,
                    i + 2,
                    (CmdModel {
                        headers: spec_header_insert(m.headers, "User-Agent"@, toks[i + 1]),
                        ..m
                    }),
                )
            } else {
                m
            }
        } else if t == "-e"@ || t == "--referer"@ {
            if i + 1 < toks.len() {
                parse_tokens(
                    toks,
                    i + 2,
                    (CmdModel {
                        headers: spec_header_insert(m.headers, "Referer"@, toks[i + 1]),
                        ..m
                    }),
                )
            } else {
                m
            }
        } else if t == "--compressed"@ {
            parse_tokens(
                toks,
                i + 1,
                (CmdModel {
                    headers: spec_header_insert(m.headers, "Accept-Encoding"@, "gzip, deflate"@),
                    ..m
                }),
            )
        } else if !(t.len() > 0 && t[0] == '-') && m.url.len() == 0 {
            parse_tokens(toks, i + 1, (CmdModel { url: t, ..m }))
        } else {
            parse_tokens(toks, i + 1, m)
        }
    }
}

/// What parsing the whole command yields: the command is trimmed, a
/// leading `curl` word is dropped, and the tokens are folded.
pub open spec fn spec_parse_curl(raw: Seq<char>) -> CmdModel {
    let t = spec_trim(raw);
    let rest = if t.len() >= 5 && t.subrange(0, 5) == "curl "@ {
        t.subrange(5, t.len() as int)
    } else if t.len() >= 4 && t.subrange(0, 4) == "curl"@ {
        t.subrange(4, t.len() as int)
    } else {
        t
    };
    parse_tokens(spec_tokenize(rest), 0, parse_init())
}

/// The name and value of a `Name: value` header argument, when it has a
/// colon.
fn split_header(tok: &str) -> (r: Option<(String, String)>)
    ensures
        ({
            let p = find_char(tok@, ':', 0);
            &&& (r is None <==> p == tok@.len())
            &&& (r matches Some(kv) ==> p < tok@.len() && kv.0@ == spec_trim(tok@.subrange(0, p))
                && kv.1@ == spec_trim(tok@.subrange(p + 1, tok@.len() as int)))
        }),
{
    let cs = chars_of(tok);
    let n = cs.len();
    let mut p: usize = 0;
    while p < n && cs[p] != ':'
        invariant
            n == cs@.len(),
            cs@ == tok@,
            p <= n,
            find_char(tok@, ':', 0) == find_char(tok@, ':', p as int),
        decreases n - p,
    {
        p = p + 1;
    }
    if p == n {
        return None;
    }
    assert(find_char(tok@, ':', p as int) == p);
    let key_chars = crate::text::chars_range(&cs, 0, p);
    let val_chars = crate::text::chars_range(&cs, p + 1, n);
    let key = string_from_chars(&trim_chars(&key_chars));
    let val = string_from_chars(&trim_chars(&val_chars));
    Some((key, val))
}

/// Applies a `Name: value` argument to the headers, as
/// `spec_parse_header_into` describes.
pub fn parse_header(header: &str, headers: &mut Vec<(String, String)>)
    ensures
        headers_view(final(headers)@) == spec_parse_header_into(headers_view(old(headers)@), header@),
{
    match split_header(header) {
        Some((k, v)) => {
            header_insert(headers, k, v);
        },
        None => {},
    }
}

/// Parses one curl command into a template, exactly as `spec_parse_curl`
/// describes; the one rejected input is a command without a URL.
pub fn parse_curl_command(cmd: &str) -> (r: Result<CurlCommand, CurlError>)
    ensures
        ({
            let m = spec_parse_curl(cmd@);
            &&& (r matches Ok(c) ==> cmd_model_of(c) == m && m.url.len() > 0)
            &&& (r is Err <==> m.url.len() == 0)
            &&& (r matches Err(e) ==> e == CurlError::NoUrl)
        }),
{
    let cs = chars_of(cmd);
    let t = trim_chars(&cs);
    let n = t.len();
    let has_curl_space = starts_with_chars(&t, "curl ");
    let has_curl = starts_with_chars(&t, "curl");
    proof {
        reveal_strlit("curl ");
        reveal_strlit("curl");
    }
    let rest: Vec<char> = if has_curl_space {
        crate::text::chars_range(&t, 5, n)
    } else if has_curl {
        crate::text::chars_range(&t, 4, n)
    } else {
        crate::text::chars_range(&t, 0, n)
    };
    proof {
        assert(t@.subrange(0, n as int) =~= t@);
    }
    let rest_str = string_from_chars(&rest);
    let tokens = match tokenize_curl_command(rest_str.as_str()) {
        Ok(ts) => ts,
        Err(e) => {
            return Err(e);
        },
    };
    let ghost toks = tokens_view(tokens@);
    let num = tokens.len();
    let mut url = String::new();
    let mut method: String = "GET".to_owned();
    let mut headers: Vec<(String, String)> = Vec::new();
    let mut body: Option<String> = None;
    proof {
        assert(headers_view(headers@) =~= Seq::<(Seq<char>, Seq<char>)>::empty());
    }
    let mut i: usize = 0;
    while i < num
        invariant
            num == tokens@.len(),
            toks == tokens_view(tokens@),
            i <= num,
            spec_parse_curl(cmd@) == parse_tokens(toks, 0, parse_init()),
            parse_tokens(toks, 0, parse_init()) == parse_tokens(
                toks,
                i as int,
                (CmdModel {
                    url: url@,
                    method: method@,
                    headers: headers_view(headers@),
                    body: match &body {
                        Some(b) => Some(b@),
                        None => None,
                    },
                }),
            ),
        decreases num - i,
    {
        let ghost m = CmdModel {
            url: url@,
            method: method@,
            headers: headers_view(headers@),
            body: match &body {
                Some(b) => Some(b@),
                None => None,
            },
        };
        proof {
            assert(toks[i as int] == tokens@[i as int]@);
            if i + 1 < num {
                assert(toks[i + 1] == tokens@[i + 1]@);
            }
        }
        let token = &tokens[i];
        if str_eq(token.as_str(), "-X") || str_eq(token.as_str(), "--request") {
            if i + 1 < num {
                method = ascii_upper(tokens[i + 1].as_str());
                i = i + 2;
            } else {
                return finish_parse(url, method, headers, body);
            }
        } else if str_eq(token.as_str(), "-H") || str_eq(token.as_str(), "--header") {
            if i + 1 < num {
                parse_header(tokens[i + 1].as_str(), &mut headers);
                i = i + 2;
            } else {
                return finish_parse(url, method, headers, body);
            }
        } else if str_eq(token.as_str(), "-d") || str_eq(token.as_str(), "--data") || str_eq(
            token.as_str(),
            "--data-raw",
        ) || str_eq(token.as_str(), "--data-binary") || str_eq(token.as_str(), "--data-urlencode") {
            if i + 1 < num {
                body = Some(tokens[i + 1].clone());
                if str_eq(method.as_str(), "GET") {
                    method = "POST".to_owned();
                }
                i = i + 2;
            } else {
                return finish_parse(url, method, headers, body);
            }
        } else if str_eq(token.as_str(), "-u") || str_eq(token.as_str(), "--user") {
            if i + 1 < num {
                let encoded = base64_encode(tokens[i + 1].as_str());
                let mut auth: String = "Basic ".to_owned();
                auth.append(encoded.as_str());
                header_insert(&mut headers, "Authorization".to_owned(), auth);
                i = i + 2;
            } else {
                return finish_parse(url, method, headers, body);
            }
        } else if str_eq(token.as_str(), "-A") || str_eq(token.as_str(), "--user-agent") {
            if i + 1 < num {
                header_insert(&mut headers, "User-Agent".to_owned(), tokens[i + 1].clone());
                i = i + 2;
            } else {
                return finish_parse(url, method, headers, body);
            }
        } else if str_eq(token.as_str(), "-e") || str_eq(token.as_str(), "--referer") {
            if i + 1 < num {
                header_insert(&mut headers, "Referer".to_owned(), tokens[i + 1].clone());
                i = i + 2;
            } else {
                return finish_parse(url, method, headers, body);
            }
        } else if str_eq(token.as_str(), "--compressed") {
            header_insert(&mut headers, "Accept-Encoding".to_owned(), "gzip, deflate".to_owned());
            i = i + 1;
        } else {
            let starts_dash = token.as_str().unicode_len() > 0 && token.as_str().get_char(0) == '-';
            if !starts_dash && url.as_str().unicode_len() == 0 {
                url = tokens[i].clone();
            }
            i = i + 1;
        }
    }
    finish_parse(url, method, headers, body)
}

// ---- files of commands, one per line ----

pub proof fn lemma_find_char_range(s: Seq<char>, c: char, i: int)
    requires
        0 <= i <= s.len(),
    ensures
        i <= find_char(s, c, i) <= s.len(),
    decreases s.len() - i,
{
    if i < s.len() && s[i] != c {
        lemma_find_char_range(s, c, i + 1);
    }
}

/// The templates a script yields, top to bottom: one per line that is not
/// blank, not a comment, and parses to a command with a URL.
pub open spec fn spec_script_cmds(s: Seq<char>, i: int) -> Seq<CmdModel>
    decreases s.len() + 1 - i,
    when 0 <= i
    via spec_script_cmds_decreases
{
    if i >= s.len() {
        Seq::empty()
    } else {
        let e = find_char(s, '\n', i);
        let line = spec_trim(s.subrange(i, e));
        let rest = spec_script_cmds(s, e + 1);
        if line.len() == 0 || line[0] == '#' {
            rest
        } else {
            let m = spec_parse_curl(s.subrange(i, e));
            if m.url.len() > 0 {
                seq![m] + rest
            } else {
                rest
            }
        }
    }
}

#[via_fn]
proof fn spec_script_cmds_decreases(s: Seq<char>, i: int) {
    if 0 <= i < s.len() {
        lemma_find_char_range(s, '\n', i);
    }
}

/// Parses every line of a script: blank lines and `#` comments are
/// skipped, lines that parse badly are dropped, and a script yielding no
/// command at all is rejected.
pub fn parse_curl_script(text: &str) -> (r: Result<Vec<CurlCommand>, CurlError>)
    ensures
        ({
            let ms = spec_script_cmds(text@, 0);
            &&& (r matches Ok(cs) ==> cs@.map_values(|c: CurlCommand| cmd_model_of(c)) == ms
                && ms.len() > 0)
            &&& (r is Err <==> ms.len() == 0)
            &&& (r matches Err(e) ==> e == CurlError::NoValidCommand)
        }),
{
    let cs = chars_of(text);
    let n = cs.len();
    let mut cmds: Vec<CurlCommand> = Vec::new();
    let mut i: usize = 0;
    proof {
        assert(cmds@.map_values(|c: CurlCommand| cmd_model_of(c)) =~= Seq::<CmdModel>::empty());
        assert(Seq::<CmdModel>::empty() + spec_script_cmds(text@, 0) =~= spec_script_cmds(
            text@,
            0,
        ));
    }
    while i < n
        invariant
            n == cs@.len(),
            cs@ == text@,
            i <= n,
            spec_script_cmds(text@, 0) == cmds@.map_values(|c: CurlCommand| cmd_model_of(c))
                + spec_script_cmds(text@, i as int),
        decreases n - i,
    {
        let ghost acc = cmds@.map_values(|c: CurlCommand| cmd_model_of(c));
        let mut e: usize = i;
        while e < n && cs[e] != '\n'
            invariant
                i <= e <= n,
                n == cs@.len(),
                cs@ == text@,
                find_char(text@, '\n', i as int) == find_char(text@, '\n', e as int),
            decreases n - e,
        {
            e = e + 1;
        }
        proof {
            assert(find_char(text@, '\n', e as int) == e);
        }
        let line_chars = crate::text::chars_range(&cs, i, e);
        let trimmed = trim_chars(&line_chars);
        let skip = trimmed.len() == 0 || trimmed[0] == '#';
        if !skip {
            let line = string_from_chars(&line_chars);
            match parse_curl_command(line.as_str()) {
                Ok(cmd) => {
                    cmds.push(cmd);
                    proof {
                        assert(cmds@.map_values(|c: CurlCommand| cmd_model_of(c)) =~= acc.push(
                            spec_parse_curl(text@.subrange(i as int, e as int)),
                        ));
                        assert(acc.push(spec_parse_curl(text@.subrange(i as int, e as int)))
                            + spec_script_cmds(text@, e + 1) =~= acc + (seq![
                            spec_parse_curl(text@.subrange(i as int, e as int)),
                        ] + spec_script_cmds(text@, e + 1)));
                    }
                },
                Err(_) => {},
            }
        }
        if e == n {
            proof {
                assert(spec_script_cmds(text@, e + 1) =~= Seq::<CmdModel>::empty());
                assert(spec_script_cmds(text@, n as int) =~= Seq::<CmdModel>::empty());
            }
            i = n;
        } else {
            i = e + 1;
        }
    }
    proof {
        assert(spec_script_cmds(text@, i as int) =~= Seq::<CmdModel>::empty());
        assert(cmds@.map_values(|c: CurlCommand| cmd_model_of(c)) + Seq::<CmdModel>::empty()
            =~= cmds@.map_values(|c: CurlCommand| cmd_model_of(c)));
    }
    if cmds.len() == 0 {
        Err(CurlError::NoValidCommand)
    } else {
        Ok(cmds)
    }
}

/// Packs the fold's final state, rejecting a command without a URL.
fn finish_parse(
    url: String,
    method: String,
    headers: Vec<(String, String)>,
    body: Option<String>,
) -> (r: Result<CurlCommand, CurlError>)
    ensures
        ({
            let m = CmdModel {
                url: url@,
                method: method@,
                headers: headers_view(headers@),
                body: match body {
                    Some(b) => Some(b@),
                    None => None,
                },
            };
            &&& (r matches Ok(c) ==> cmd_model_of(c) == m && m.url.len() > 0)
            &&& (r is Err <==> m.url.len() == 0)
            &&& (r matches Err(e) ==> e == CurlError::NoUrl)
        }),
{
    if url.as_str().unicode_len() == 0 {
        Err(CurlError::NoUrl)
    } else {
        Ok(CurlCommand { url, method, headers, body })
    }
}

} // verus!
