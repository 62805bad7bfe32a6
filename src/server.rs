//! Request parsing and response serialization for HTTP/1.1 messages that are
//! framed by `Content-Length` alone.

use vstd::prelude::*;
use vstd::slice::slice_to_vec;
use vstd::string::*;
use vstd::utf8::*;

use crate::fields::FieldMap;
use crate::text::{is_ascii_byte, lemma_ascii_delimited, utf8_to_string};

verus! {

broadcast use vstd::utf8::decode_utf8_encode_utf8;

/// The longest line content, in bytes before its `\n`, that the reader accepts.
pub const MAX_LINE: usize = 8192;

/// Header fields of a message.
pub type Headers = FieldMap;

/// Query parameters of a request target.
pub type QueryParams = FieldMap;

/// The request methods that the parser accepts.
#[derive(Debug, Clone, Copy, PartialEq, Eq, Structural)]
pub enum HttpMethod {
    GET,
    POST,
}

/// Why a request could not be parsed (or, for `TransportError`, read).
#[derive(Debug, Clone, Copy, PartialEq, Eq, Structural)]
pub enum ParseError {
    TransportError,
    EarlyEof,
    MalformedRequestLine,
    UnsupportedMethod,
    TruncatedBody,
    HeaderTooLarge,
    NotUtf8,
}

pub open spec fn byte_lf() -> u8 {
    0x0A
}

pub open spec fn byte_cr() -> u8 {
    0x0D
}

/// Index of the first `\n` at or after `i`, or the length when there is none.
pub open spec fn newline_from(b: Seq<u8>, i: int) -> int
    decreases b.len() - i,
{
    if i >= b.len() {
        b.len() as int
    } else if b[i] == byte_lf() {
        i
    } else {
        newline_from(b, i + 1)
    }
}

/// The line that starts at `pos`: the end of its content (before `\n` and
/// one `\r` in front of it) and the start of the next line.
pub open spec fn line_at(b: Seq<u8>, pos: int) -> Result<(int, int), ParseError> {
    let e = newline_from(b, pos);
    if e - pos > MAX_LINE {
        Err(ParseError::HeaderTooLarge)
    } else if e >= b.len() {
        Err(ParseError::EarlyEof)
    } else {
        let end = if e > pos && b[e - 1] == byte_cr() {
            e - 1
        } else {
            e
        };
        if !valid_utf8(b.subrange(pos, end)) {
            Err(ParseError::NotUtf8)
        } else {
            Ok((end, e + 1))
        }
    }
}

proof fn lemma_newline_from_bounds(b: Seq<u8>, i: int)
    requires
        0 <= i <= b.len(),
    ensures
        i <= newline_from(b, i) <= b.len(),
        newline_from(b, i) < b.len() ==> b[newline_from(b, i)] == byte_lf(),
        forall|k: int| i <= k < newline_from(b, i) ==> b[k] != byte_lf(),
    decreases b.len() - i,
{
    if i < b.len() && b[i] != byte_lf() {
        lemma_newline_from_bounds(b, i + 1);
    }
}

/// Reads the line that starts at `pos` in `input`: its text, without the
/// `\n` and one `\r` before it, and the position after its `\n`.
pub fn read_line(input: &[u8], pos: usize) -> (r: Result<(String, usize), ParseError>)
    requires
        pos <= input@.len(),
    ensures
        match line_at(input@, pos as int) {
            Err(e) => r == Err::<(String, usize), ParseError>(e),
            Ok((end, next)) => r matches Ok((s, n)) && s@ == decode_utf8(
                input@.subrange(pos as int, end),
            ) && n == next,
        },
{
    let mut i: usize = pos;
    while i < input.len() && i - pos <= MAX_LINE && input[i] != 0x0Au8
        invariant
            pos <= i <= input@.len(),
            i - pos <= MAX_LINE + 1,
            newline_from(input@, i as int) == newline_from(input@, pos as int),
        decreases input@.len() - i,
    {
        i = i + 1;
    }
    proof {
        lemma_newline_from_bounds(input@, i as int);
    }
    if i - pos > MAX_LINE {
        return Err(ParseError::HeaderTooLarge);
    }
    if i >= input.len() {
        return Err(ParseError::EarlyEof);
    }
    let end: usize = if i > pos && input[i - 1] == 0x0Du8 {
        i - 1
    } else {
        i
    };
    match utf8_to_string(&input[pos..end]) {
        Some(s) => Ok((s, i + 1)),
        None => Err(ParseError::NotUtf8),
    }
}

proof fn lemma_newline_skip(b: Seq<u8>, i: int, j: int)
    requires
        0 <= i <= j <= b.len(),
        forall|k: int| i <= k < j ==> b[k] != byte_lf(),
    ensures
        newline_from(b, i) == newline_from(b, j),
    decreases j - i,
{
    if i < j {
        lemma_newline_skip(b, i + 1, j);
    }
}

/// The line reader undoes appending CRLF: reading the line at the start of
/// `x` followed by `\r\n` yields exactly `x` (its decoding) and consumes all of it,
/// for valid UTF-8 `x` without `\n` that fits the line limit.
pub proof fn lemma_read_line_after_crlf(x: Seq<u8>)
    requires
        valid_utf8(x),
        forall|k: int| 0 <= k < x.len() ==> x[k] != byte_lf(),
        x.len() < MAX_LINE,
    ensures
        line_at(x + seq![byte_cr(), byte_lf()], 0) == Ok::<(int, int), ParseError>(
            (x.len() as int, x.len() + 2int),
        ),
{
    let b = x + seq![byte_cr(), byte_lf()];
    assert forall|k: int| 0 <= k < x.len() implies b[k] != byte_lf() by {
        assert(b[k] == x[k]);
    }
    lemma_newline_skip(b, 0, x.len() as int + 1);
    assert(b[x.len() as int + 1] == byte_lf());
    assert(newline_from(b, x.len() as int + 1) == x.len() + 1);
    assert(b.subrange(0, x.len() as int) =~= x);
}

/// The bytes that the request-line tokenizer treats as separators.
pub open spec fn is_ws(c: u8) -> bool {
    c == 0x20 || c == 0x09 || c == 0x0A || c == 0x0C || c == 0x0D
}

/// The first index at or after `i` that holds no separator, or the length.
pub open spec fn skip_ws(l: Seq<u8>, i: int) -> int
    decreases l.len() - i,
{
    if i >= l.len() {
        l.len() as int
    } else if is_ws(l[i]) {
        skip_ws(l, i + 1)
    } else {
        i
    }
}

/// The first index at or after `i` that holds a separator, or the length.
pub open spec fn token_end(l: Seq<u8>, i: int) -> int
    decreases l.len() - i,
{
    if i >= l.len() {
        l.len() as int
    } else if is_ws(l[i]) {
        i
    } else {
        token_end(l, i + 1)
    }
}

/// The method that a token names, if it is a supported one.
pub open spec fn method_of(tok: Seq<u8>) -> Option<HttpMethod> {
    if tok == seq![0x47u8, 0x45u8, 0x54u8] {
        Some(HttpMethod::GET)
    } else if tok == seq![0x50u8, 0x4Fu8, 0x53u8, 0x54u8] {
        Some(HttpMethod::POST)
    } else {
        None
    }
}

/// The method and the target of a request line, from its first two tokens.
pub open spec fn request_line(l: Seq<u8>) -> Result<(HttpMethod, Seq<u8>), ParseError> {
    let m0 = skip_ws(l, 0);
    let m1 = token_end(l, m0);
    let t0 = skip_ws(l, m1);
    let t1 = token_end(l, t0);
    if m0 >= l.len() {
        Err(ParseError::MalformedRequestLine)
    } else if method_of(l.subrange(m0, m1)) is None {
        Err(ParseError::UnsupportedMethod)
    } else if t0 >= l.len() {
        Err(ParseError::MalformedRequestLine)
    } else {
        Ok((method_of(l.subrange(m0, m1))->0, l.subrange(t0, t1)))
    }
}

proof fn lemma_skip_ws(l: Seq<u8>, i: int)
    requires
        0 <= i <= l.len(),
    ensures
        i <= skip_ws(l, i) <= l.len(),
        skip_ws(l, i) < l.len() ==> !is_ws(l[skip_ws(l, i)]),
        forall|k: int| i <= k < skip_ws(l, i) ==> is_ws(l[k]),
    decreases l.len() - i,
{
    if i < l.len() && is_ws(l[i]) {
        lemma_skip_ws(l, i + 1);
    }
}

proof fn lemma_token_end(l: Seq<u8>, i: int)
    requires
        0 <= i <= l.len(),
    ensures
        i <= token_end(l, i) <= l.len(),
        token_end(l, i) < l.len() ==> is_ws(l[token_end(l, i)]),
        forall|k: int| i <= k < token_end(l, i) ==> !is_ws(l[k]),
    decreases l.len() - i,
{
    if i < l.len() && !is_ws(l[i]) {
        lemma_token_end(l, i + 1);
    }
}

fn skip_separators(l: &[u8], i: usize) -> (r: usize)
    requires
        i <= l@.len(),
    ensures
        r == skip_ws(l@, i as int),
{
    let mut j: usize = i;
    while j < l.len() && (l[j] == 0x20u8 || l[j] == 0x09u8 || l[j] == 0x0Au8 || l[j] == 0x0Cu8
        || l[j] == 0x0Du8)
        invariant
            i <= j <= l@.len(),
            skip_ws(l@, j as int) == skip_ws(l@, i as int),
        decreases l@.len() - j,
    {
        j = j + 1;
    }
    j
}

fn find_token_end(l: &[u8], i: usize) -> (r: usize)
    requires
        i <= l@.len(),
    ensures
        r == token_end(l@, i as int),
{
    let mut j: usize = i;
    while j < l.len() && !(l[j] == 0x20u8 || l[j] == 0x09u8 || l[j] == 0x0Au8 || l[j] == 0x0Cu8
        || l[j] == 0x0Du8)
        invariant
            i <= j <= l@.len(),
            token_end(l@, j as int) == token_end(l@, i as int),
        decreases l@.len() - j,
    {
        j = j + 1;
    }
    j
}

fn method_token(l: &[u8], start: usize, end: usize) -> (r: Option<HttpMethod>)
    requires
        start <= end <= l@.len(),
    ensures
        r == method_of(l@.subrange(start as int, end as int)),
{
    let ghost tok = l@.subrange(start as int, end as int);
    if end - start == 3 && l[start] == 0x47u8 && l[start + 1] == 0x45u8 && l[start + 2] == 0x54u8 {
        assert(tok =~= seq![0x47u8, 0x45u8, 0x54u8]);
        Some(HttpMethod::GET)
    } else if end - start == 4 && l[start] == 0x50u8 && l[start + 1] == 0x4Fu8 && l[start + 2]
        == 0x53u8 && l[start + 3] == 0x54u8 {
        assert(tok =~= seq![0x50u8, 0x4Fu8, 0x53u8, 0x54u8]);
        Some(HttpMethod::POST)
    } else {
        assert(tok.len() == 3 ==> tok[0] == l@[start as int] && tok[1] == l@[start + 1] && tok[2]
            == l@[start + 2]);
        assert(tok.len() == 4 ==> tok[0] == l@[start as int] && tok[1] == l@[start + 1] && tok[2]
            == l@[start + 2] && tok[3] == l@[start + 3]);
        proof {
            if tok == seq![0x47u8, 0x45u8, 0x54u8] {
                assert(tok[0] == 0x47u8 && tok[1] == 0x45u8 && tok[2] == 0x54u8);
            }
            if tok == seq![0x50u8, 0x4Fu8, 0x53u8, 0x54u8] {
                assert(tok[0] == 0x50u8 && tok[1] == 0x4Fu8 && tok[2] == 0x53u8 && tok[3] == 0x54u8);
            }
        }
        None
    }
}

/// Splits a request line into its method and target, as bytes of the line.
fn split_request_line(l: &[u8]) -> (r: Result<(HttpMethod, usize, usize), ParseError>)
    ensures
        match request_line(l@) {
            Err(e) => r == Err::<(HttpMethod, usize, usize), ParseError>(e),
            Ok((m, t)) => r matches Ok((rm, t0, t1)) && rm == m && t0 <= t1 <= l@.len()
                && l@.subrange(t0 as int, t1 as int) == t && t0 > 0 && is_ws(l@[t0 - 1])
                && (t1 == l@.len() || is_ws(l@[t1 as int])),
        },
{
    let m0 = skip_separators(l, 0);
    proof { lemma_skip_ws(l@, 0); }
    let m1 = find_token_end(l, m0);
    proof { lemma_token_end(l@, m0 as int); }
    let t0 = skip_separators(l, m1);
    proof { lemma_skip_ws(l@, m1 as int); }
    let t1 = find_token_end(l, t0);
    proof { lemma_token_end(l@, t0 as int); }
    if m0 >= l.len() {
        return Err(ParseError::MalformedRequestLine);
    }
    let method = match method_token(l, m0, m1) {
        Some(m) => m,
        None => return Err(ParseError::UnsupportedMethod),
    };
    if t0 >= l.len() {
        return Err(ParseError::MalformedRequestLine);
    }
    Ok((method, t0, t1))
}

/// The first index at or after `i` where `": "` starts, or the length.
pub open spec fn colon_space_from(l: Seq<u8>, i: int) -> int
    decreases l.len() - i,
{
    if i + 1 >= l.len() {
        l.len() as int
    } else if l[i] == 0x3Au8 && l[i + 1] == 0x20u8 {
        i
    } else {
        colon_space_from(l, i + 1)
    }
}

/// A header line split once at its first `": "`; a line without one is dropped.
pub open spec fn add_header(m: Map<Seq<char>, Seq<char>>, l: Seq<u8>) -> Map<Seq<char>, Seq<char>> {
    let c = colon_space_from(l, 0);
    if c >= l.len() {
        m
    } else {
        m.insert(decode_utf8(l.subrange(0, c)), decode_utf8(l.subrange(c + 2, l.len() as int)))
    }
}

/// The header lines from `pos` up to the empty line, added to `m`, and where
/// the body starts.
pub open spec fn header_block(b: Seq<u8>, pos: int, m: Map<Seq<char>, Seq<char>>) -> Result<
    (Map<Seq<char>, Seq<char>>, int),
    ParseError,
>
    decreases b.len() - pos,
{
    match line_at(b, pos) {
        Err(e) => Err(e),
        Ok((end, next)) => if end == pos {
            Ok((m, next))
        } else if next <= pos || next > b.len() {
            Err(ParseError::EarlyEof)
        } else {
            header_block(b, next, add_header(m, b.subrange(pos, end)))
        },
    }
}

/// Where the content of the line at `pos` ends, when that line can be read.
pub open spec fn content_end(b: Seq<u8>, pos: int) -> int {
    match line_at(b, pos) {
        Ok((end, _)) => end,
        Err(_) => pos,
    }
}

proof fn lemma_line_at_bounds(b: Seq<u8>, pos: int)
    requires
        0 <= pos <= b.len(),
    ensures
        line_at(b, pos) matches Ok((end, next)) ==> pos <= end < next <= b.len(),
{
    lemma_newline_from_bounds(b, pos);
}

/// Adds one header line to `headers`, as `add_header` says.
fn add_header_line(headers: &mut Headers, l: &[u8])
    requires
        old(headers).wf(),
        valid_utf8(l@),
    ensures
        final(headers).wf(),
        final(headers)@ == add_header(old(headers)@, l@),
{
    let mut c: usize = 0;
    while c < l.len() && c + 1 < l.len() && !(l[c] == 0x3Au8 && l[c + 1] == 0x20u8)
        invariant
            c <= l@.len(),
            colon_space_from(l@, c as int) == colon_space_from(l@, 0),
        decreases l@.len() - c,
    {
        c = c + 1;
    }
    if c >= l.len() || c + 1 >= l.len() {
        return;
    }
    proof {
        lemma_ascii_delimited(l@, 0, c as int);
        lemma_ascii_delimited(l@, c + 2, l@.len() as int);
    }
    let name = decode_valid(&l[0..c]);
    let value = decode_valid(&l[c + 2..l.len()]);
    headers.insert(name, value);
}

/// Whether `c` is an ASCII decimal digit.
pub open spec fn is_digit(c: u8) -> bool {
    0x30 <= c <= 0x39
}

/// The number that a string of decimal digits writes.
pub open spec fn digits_value(d: Seq<u8>) -> nat
    decreases d.len(),
{
    if d.len() == 0 {
        0
    } else {
        digits_value(d.drop_last()) * 10 + (d.last() - 0x30u8) as nat
    }
}

/// Whether every byte of `d` is a decimal digit.
pub open spec fn all_digits(d: Seq<u8>) -> bool {
    forall|k: int| 0 <= k < d.len() ==> is_digit(#[trigger] d[k])
}

/// The non-negative integer that `s` writes: an optional `+` and at least one digit.
pub open spec fn parse_decimal(s: Seq<u8>) -> Option<nat> {
    let d = if s.len() > 0 && s[0] == 0x2Bu8 {
        s.drop_first()
    } else {
        s
    };
    if d.len() > 0 && all_digits(d) {
        Some(digits_value(d))
    } else {
        None
    }
}

/// Reads `s` as a decimal `usize`; `None` where it writes no number or one too large.
fn parse_usize(s: &[u8]) -> (r: Option<usize>)
    ensures
        r == (match parse_decimal(s@) {
            Some(n) => if n <= usize::MAX {
                Some(n as usize)
            } else {
                None
            },
            None => None,
        }),
{
    let start: usize = if s.len() > 0 && s[0] == 0x2Bu8 {
        1
    } else {
        0
    };
    let ghost d = s@.subrange(start as int, s@.len() as int);
    assert(d =~= (if s@.len() > 0 && s@[0] == 0x2Bu8 {
        s@.drop_first()
    } else {
        s@
    }));
    if start >= s.len() {
        return None;
    }
    let mut i: usize = start;
    let mut acc: usize = 0;
    let mut overflow = false;
    while i < s.len()
        invariant
            start <= i <= s@.len(),
            d == s@.subrange(start as int, s@.len() as int),
            d == (if s@.len() > 0 && s@[0] == 0x2Bu8 {
                s@.drop_first()
            } else {
                s@
            }),
            forall|k: int| start <= k < i ==> is_digit(s@[k]),
            !overflow ==> acc == digits_value(s@.subrange(start as int, i as int)),
            overflow ==> digits_value(s@.subrange(start as int, i as int)) > usize::MAX,
        decreases s@.len() - i,
    {
        if !(0x30u8 <= s[i] && s[i] <= 0x39u8) {
            assert(!is_digit(d[i - start]));
            assert(!all_digits(d));
            return None;
        }
        let ghost prev = s@.subrange(start as int, i as int);
        assert(s@.subrange(start as int, i + 1).drop_last() =~= prev);
        let digit = (s[i] - 0x30u8) as usize;
        if !overflow {
            match acc.checked_mul(10) {
                Some(t) => match t.checked_add(digit) {
                    Some(v) => acc = v,
                    None => overflow = true,
                },
                None => overflow = true,
            }
        }
        i = i + 1;
    }
    assert(s@.subrange(start as int, s@.len() as int) == d);
    if overflow {
        None
    } else {
        Some(acc)
    }
}

/// The name of the header field that frames the body.
pub open spec fn content_length_name() -> Seq<char> {
    seq!['C', 'o', 'n', 't', 'e', 'n', 't', '-', 'L', 'e', 'n', 'g', 't', 'h']
}

/// The body length that `headers` announce: the `Content-Length` value where
/// it is a decimal number that fits a `usize`, else 0.
pub open spec fn content_length(headers: Map<Seq<char>, Seq<char>>) -> nat {
    if headers.contains_key(content_length_name()) {
        match parse_decimal(encode_utf8(headers[content_length_name()])) {
            Some(n) => if n <= usize::MAX {
                n
            } else {
                0
            },
            None => 0,
        }
    } else {
        0
    }
}

fn announced_length(headers: &Headers) -> (r: usize)
    requires
        headers.wf(),
    ensures
        r == content_length(headers@),
{
    let name = "Content-Length";
    proof {
        reveal_strlit("Content-Length");
        assert(name@ =~= content_length_name());
    }
    match headers.get(name) {
        Some(v) => match parse_usize(v.as_str().as_bytes()) {
            Some(n) => n,
            None => 0,
        },
        None => 0,
    }
}

/// Decodes bytes that are known to be valid UTF-8.
fn decode_valid(b: &[u8]) -> (r: String)
    requires
        valid_utf8(b@),
    ensures
        r@ == decode_utf8(b@),
{
    match utf8_to_string(b) {
        Some(s) => s,
        None => String::new(),
    }
}

/// The first index at or after `i` that holds `c`, or the length.
pub open spec fn byte_index_from(b: Seq<u8>, i: int, c: u8) -> int
    decreases b.len() - i,
{
    if i >= b.len() {
        b.len() as int
    } else if b[i] == c {
        i
    } else {
        byte_index_from(b, i + 1, c)
    }
}

proof fn lemma_byte_index(b: Seq<u8>, i: int, c: u8)
    requires
        0 <= i <= b.len(),
    ensures
        i <= byte_index_from(b, i, c) <= b.len(),
        byte_index_from(b, i, c) < b.len() ==> b[byte_index_from(b, i, c)] == c,
        forall|k: int| i <= k < byte_index_from(b, i, c) ==> b[k] != c,
    decreases b.len() - i,
{
    if i < b.len() && b[i] != c {
        lemma_byte_index(b, i + 1, c);
    }
}

fn find_byte(b: &[u8], c: u8) -> (r: usize)
    ensures
        r == byte_index_from(b@, 0, c),
{
    let mut i: usize = 0;
    while i < b.len() && b[i] != c
        invariant
            i <= b@.len(),
            byte_index_from(b@, i as int, c) == byte_index_from(b@, 0, c),
        decreases b@.len() - i,
    {
        i = i + 1;
    }
    i
}

/// The path of a request target: the bytes before its first `?`.
pub open spec fn url_path(t: Seq<u8>) -> Seq<u8> {
    t.subrange(0, byte_index_from(t, 0, 0x3Fu8))
}

/// One query piece added to `m`: split once at `=` into key and value (empty
/// when there is no `=`); an empty piece adds nothing.
pub open spec fn add_pair(m: Map<Seq<char>, Seq<char>>, p: Seq<u8>) -> Map<Seq<char>, Seq<char>> {
    if p.len() == 0 {
        m
    } else {
        let e = byte_index_from(p, 0, 0x3Du8);
        m.insert(
            decode_utf8(p.subrange(0, e)),
            if e < p.len() {
                decode_utf8(p.subrange(e + 1, p.len() as int))
            } else {
                Seq::empty()
            },
        )
    }
}

/// The pieces of `s` between `&`s, from index `i` on, added to `m` in order;
/// the current piece started at `start`.
pub open spec fn query_scan(s: Seq<u8>, i: int, start: int, m: Map<Seq<char>, Seq<char>>) -> Map<
    Seq<char>,
    Seq<char>,
>
    decreases s.len() - i,
{
    if i >= s.len() {
        add_pair(m, s.subrange(start, s.len() as int))
    } else if s[i] == 0x26u8 {
        query_scan(s, i + 1, i + 1, add_pair(m, s.subrange(start, i)))
    } else {
        query_scan(s, i + 1, start, m)
    }
}

/// The parameters of a query string: its `&`-separated pieces added in order,
/// so that a later key replaces an earlier one.
pub open spec fn query_map(s: Seq<u8>) -> Map<Seq<char>, Seq<char>> {
    query_scan(s, 0, 0, Map::empty())
}

/// The query parameters of a request target; none where it has no `?`.
pub open spec fn url_query(t: Seq<u8>) -> Map<Seq<char>, Seq<char>> {
    let q = byte_index_from(t, 0, 0x3Fu8);
    if q >= t.len() {
        Map::empty()
    } else {
        query_map(t.subrange(q + 1, t.len() as int))
    }
}

proof fn lemma_byte_index_skip(b: Seq<u8>, i: int, j: int, c: u8)
    requires
        0 <= i <= j <= b.len(),
        forall|k: int| i <= k < j ==> b[k] != c,
    ensures
        byte_index_from(b, i, c) == byte_index_from(b, j, c),
    decreases j - i,
{
    if i < j {
        lemma_byte_index_skip(b, i + 1, j, c);
    }
}

/// The route that `parse_url` returns is the path of the target: written
/// back as UTF-8 and followed by nothing or by any text that starts with `?`
/// (such as the re-encoded parameters), it has the same path as the target.
pub proof fn lemma_route_keeps_path(target: Seq<char>, rest: Seq<u8>)
    requires
        rest.len() == 0 || rest[0] == 0x3Fu8,
    ensures
        url_path(encode_utf8(decode_utf8(url_path(encode_utf8(target)))) + rest) == url_path(
            encode_utf8(target),
        ),
{
    let t = encode_utf8(target);
    vstd::utf8::encode_utf8_valid_utf8(target);
    lemma_byte_index(t, 0, 0x3Fu8);
    let q = byte_index_from(t, 0, 0x3Fu8);
    lemma_ascii_delimited(t, 0, q);
    let path = url_path(t);
    assert(encode_utf8(decode_utf8(path)) == path);
    let w = path + rest;
    assert forall|k: int| 0 <= k < path.len() implies w[k] != 0x3Fu8 by {
        assert(w[k] == t[k]);
    }
    lemma_byte_index_skip(w, 0, path.len() as int, 0x3Fu8);
    if rest.len() == 0 {
        assert(w =~= path);
    } else {
        assert(w[path.len() as int] == 0x3Fu8);
    }
    assert(url_path(w) =~= path);
}

/// Adds the piece `s[a..c]` to `params`, as `add_pair` says.
fn add_query_pair(params: &mut QueryParams, s: &[u8], a: usize, c: usize)
    requires
        old(params).wf(),
        valid_utf8(s@),
        a <= c <= s@.len(),
        a == 0 || is_ascii_byte(s@[a - 1]),
        c == s@.len() || is_ascii_byte(s@[c as int]),
    ensures
        final(params).wf(),
        final(params)@ == add_pair(old(params)@, s@.subrange(a as int, c as int)),
{
    if a == c {
        return;
    }
    let p = &s[a..c];
    proof {
        lemma_ascii_delimited(s@, a as int, c as int);
    }
    let e = find_byte(p, 0x3Du8);
    proof {
        lemma_byte_index(p@, 0, 0x3Du8);
        lemma_ascii_delimited(p@, 0, e as int);
    }
    let key = decode_valid(&p[0..e]);
    let value = if e < p.len() {
        proof {
            lemma_ascii_delimited(p@, e + 1, p@.len() as int);
        }
        decode_valid(&p[e + 1..p.len()])
    } else {
        String::new()
    };
    params.insert(key, value);
}

/// Splits a request target into its path and its query parameters.
pub fn parse_url(raw_route: &str) -> (r: (String, QueryParams))
    ensures
        r.0@ == decode_utf8(url_path(encode_utf8(raw_route@))),
        r.1.wf(),
        r.1@ == url_query(encode_utf8(raw_route@)),
{
    let t = raw_route.as_bytes();
    proof {
        vstd::utf8::encode_utf8_valid_utf8(raw_route@);
    }
    let q = find_byte(t, 0x3Fu8);
    proof {
        lemma_byte_index(t@, 0, 0x3Fu8);
        lemma_ascii_delimited(t@, 0, q as int);
    }
    let route = decode_valid(&t[0..q]);
    let mut params = FieldMap::new();
    if q < t.len() {
        let s = &t[q + 1..t.len()];
        proof {
            lemma_ascii_delimited(t@, q + 1, t@.len() as int);
        }
        let mut start: usize = 0;
        let mut i: usize = 0;
        while i < s.len()
            invariant
                valid_utf8(s@),
                start <= i <= s@.len(),
                start == 0 || s@[start - 1] == 0x26u8,
                params.wf(),
                query_scan(s@, i as int, start as int, params@) == query_map(s@),
            decreases s@.len() - i,
        {
            if s[i] == 0x26u8 {
                add_query_pair(&mut params, s, start, i);
                start = i + 1;
            }
            i = i + 1;
        }
        add_query_pair(&mut params, s, start, s.len());
    } else {
        assert(params@ =~= url_query(t@));
    }
    (route, params)
}

/// The request line's method and target, the headers, and where the body
/// starts, for the message at the start of `b`.
pub open spec fn parse_head(b: Seq<u8>) -> Result<
    (HttpMethod, Seq<u8>, Map<Seq<char>, Seq<char>>, int),
    ParseError,
> {
    match line_at(b, 0) {
        Err(e) => Err(e),
        Ok((end, next)) => match request_line(b.subrange(0, end)) {
            Err(e) => Err(e),
            Ok((m, t)) => match header_block(b, next, Map::empty()) {
                Err(e) => Err(e),
                Ok((h, body_start)) => Ok((m, t, h, body_start)),
            },
        },
    }
}

/// A parsed HTTP request.
pub struct Request {
    /// The path of the target, before any `?`.
    pub route: String,
    /// The request method.
    pub method: HttpMethod,
    /// The header fields.
    pub headers: Headers,
    /// The query parameters of the target.
    pub query_params: QueryParams,
    /// The body, as many bytes as `Content-Length` announces.
    pub body: Vec<u8>,
}

impl Request {
    /// Both field maps are well formed.
    pub open spec fn wf(&self) -> bool {
        self.headers.wf() && self.query_params.wf()
    }

    /// Parses the request message at the start of `input`. Bytes after the
    /// announced body are left alone.
    ///
    /// While more bytes may still arrive, `EarlyEof` and `TruncatedBody` mean
    /// that the message is not complete yet.
    pub fn new(input: &[u8]) -> (r: Result<Request, ParseError>)
        ensures
            match parse_head(input@) {
                Err(e) => r == Err::<Request, ParseError>(e),
                Ok((m, t, h, body_start)) => if input@.len() - body_start < content_length(h) {
                    r == Err::<Request, ParseError>(ParseError::TruncatedBody)
                } else {
                    r matches Ok(q) && q.wf() && q.method == m && q.route@ == decode_utf8(
                        url_path(t),
                    ) && q.query_params@ == url_query(t) && q.headers@ == h && q.body@
                        == input@.subrange(body_start, body_start + content_length(h))
                },
            },
            r matches Ok(q) ==> q.body@.len() == content_length(q.headers@),
    {
        let ghost b = input@;
        let (line, next) = match read_line(input, 0) {
            Err(e) => return Err(e),
            Ok(x) => x,
        };
        let lb = line.as_str().as_bytes();
        let ghost end = content_end(b, 0);
        proof {
            lemma_line_at_bounds(b, 0);
            assert(lb@ == b.subrange(0, end));
        }
        let (method, t0, t1) = match split_request_line(lb) {
            Err(e) => return Err(e),
            Ok(x) => x,
        };
        proof {
            lemma_ascii_delimited(lb@, t0 as int, t1 as int);
        }
        let target = decode_valid(&lb[t0..t1]);
        let (route, query_params) = parse_url(target.as_str());
        let ghost tspec = lb@.subrange(t0 as int, t1 as int);
        assert(target@ == decode_utf8(tspec));
        assert(encode_utf8(target@) == tspec);
        let mut headers = FieldMap::new();
        let mut pos: usize = next;
        let mut done = false;
        while !done
            invariant
                next <= pos <= b.len(),
                input@ == b,
                headers.wf(),
                route@ == decode_utf8(url_path(tspec)),
                query_params.wf(),
                query_params@ == url_query(tspec),
                parse_head(b) == (match header_block(b, next as int, Map::empty()) {
                    Err(e) => Err(e),
                    Ok((h, bs)) => Ok((method, tspec, h, bs)),
                }),
                !done ==> header_block(b, pos as int, headers@) == header_block(
                    b,
                    next as int,
                    Map::empty(),
                ),
                done ==> header_block(b, next as int, Map::empty()) == Ok::<
                    (Map<Seq<char>, Seq<char>>, int),
                    ParseError,
                >((headers@, pos as int)),
            decreases b.len() - pos,
        {
            proof {
                lemma_line_at_bounds(b, pos as int);
            }
            let (hl, n) = match read_line(input, pos) {
                Err(e) => return Err(e),
                Ok(x) => x,
            };
            let hb = hl.as_str().as_bytes();
            let ghost e = content_end(b, pos as int);
            assert(hb@ == b.subrange(pos as int, e));
            if hb.len() == 0 {
                done = true;
            } else {
                add_header_line(&mut headers, hb);
            }
            pos = n;
        }
        let len = announced_length(&headers);
        if input.len() - pos < len {
            return Err(ParseError::TruncatedBody);
        }
        let body = slice_to_vec(&input[pos..pos + len]);
        Ok(Request { route, method, headers, query_params, body })
    }
}

/// The error type of serde_json, whose encoder produces response bodies.
#[verifier::external_type_specification]
#[verifier::external_body]
pub struct ExJsonError(serde_json::Error);

/// The character that writes the digit `d`.
pub open spec fn digit_char(d: nat) -> char {
    seq!['0', '1', '2', '3', '4', '5', '6', '7', '8', '9'][d as int]
}

/// The decimal numeral of `n`, without leading zeros.
pub open spec fn decimal(n: nat) -> Seq<char>
    decreases n,
{
    if n < 10 {
        seq![digit_char(n)]
    } else {
        decimal(n / 10).push(digit_char(n % 10))
    }
}

fn digit_text(d: usize) -> (r: &'static str)
    requires
        d < 10,
    ensures
        r@ == seq![digit_char(d as nat)],
{
    proof {
        reveal_strlit("0");
        reveal_strlit("1");
        reveal_strlit("2");
        reveal_strlit("3");
        reveal_strlit("4");
        reveal_strlit("5");
        reveal_strlit("6");
        reveal_strlit("7");
        reveal_strlit("8");
        reveal_strlit("9");
    }
    let r = match d {
        0 => "0",
        1 => "1",
        2 => "2",
        3 => "3",
        4 => "4",
        5 => "5",
        6 => "6",
        7 => "7",
        8 => "8",
        _ => "9",
    };
    assert(r@ =~= seq![digit_char(d as nat)]);
    r
}

/// Appends the decimal numeral of `n` to `out`.
fn push_decimal(out: &mut String, n: usize)
    ensures
        final(out)@ == old(out)@ + decimal(n as nat),
    decreases n,
{
    if n >= 10 {
        push_decimal(out, n / 10);
    }
    out.append(digit_text(n % 10));
    assert(final(out)@ =~= old(out)@ + decimal(n as nat));
}

/// The reason phrase that goes with a status code.
pub open spec fn reason(status: u16) -> Seq<char> {
    if status == 200 {
        "OK"@
    } else if status == 201 {
        "Created"@
    } else if status == 400 {
        "Bad Request"@
    } else if status == 404 {
        "Not Found"@
    } else if status == 500 {
        "Internal Server Error"@
    } else {
        "Unknown"@
    }
}

fn reason_phrase(status: u16) -> (r: &'static str)
    ensures
        r@ == reason(status),
{
    match status {
        200 => "OK",
        201 => "Created",
        400 => "Bad Request",
        404 => "Not Found",
        500 => "Internal Server Error",
        _ => "Unknown",
    }
}

pub open spec fn crlf() -> Seq<char> {
    seq!['\r', '\n']
}

/// The status line of a response, with its CRLF.
pub open spec fn status_line(status: u16) -> Seq<char> {
    "HTTP/1.1 "@ + decimal(status as nat) + seq![' '] + reason(status) + crlf()
}

/// One line `name: value` with its CRLF for each entry, in order.
pub open spec fn fields_text(es: Seq<(Seq<char>, Seq<char>)>) -> Seq<char>
    decreases es.len(),
{
    if es.len() == 0 {
        Seq::empty()
    } else {
        fields_text(es.drop_last()) + es.last().0 + seq![':', ' '] + es.last().1 + crlf()
    }
}

/// A response on the wire: status line, header lines, an empty line, the body.
pub open spec fn wire(status: u16, es: Seq<(Seq<char>, Seq<char>)>, body: Seq<char>) -> Seq<char> {
    status_line(status) + fields_text(es) + crlf() + body
}

/// Whether `s` holds neither CR nor LF.
pub open spec fn no_cr_lf(s: Seq<char>) -> bool {
    forall|k: int| 0 <= k < s.len() ==> s[k] != '\r' && s[k] != '\n'
}

/// Whether the empty line that ends a header block, `\r\n\r\n`, starts at
/// index `k` of `w`.
pub open spec fn blank_line_at(w: Seq<char>, k: int) -> bool {
    0 <= k && k + 4 <= w.len() && w[k] == '\r' && w[k + 1] == '\n' && w[k + 2] == '\r' && w[k + 3]
        == '\n'
}

/// Every CR in `s` follows a character other than LF, and `s` ends with CRLF.
spec fn lines_of_text(s: Seq<char>) -> bool {
    &&& s.len() >= 2
    &&& s[s.len() - 2] == '\r'
    &&& s[s.len() - 1] == '\n'
    &&& forall|k: int| 0 <= k < s.len() && #[trigger] s[k] == '\r' ==> k > 0 && s[k - 1] != '\n'
}

proof fn lemma_decimal_text(n: nat)
    ensures
        no_cr_lf(decimal(n)),
    decreases n,
{
    if n >= 10 {
        lemma_decimal_text(n / 10);
    }
}

proof fn lemma_reason_text(status: u16)
    ensures
        no_cr_lf(reason(status)),
        reason(status).len() > 0,
{
    reveal_strlit("OK");
    reveal_strlit("Created");
    reveal_strlit("Bad Request");
    reveal_strlit("Not Found");
    reveal_strlit("Internal Server Error");
    reveal_strlit("Unknown");
}

/// Appending `text` and CRLF keeps `lines_of_text`, where `text` is non-empty
/// and holds no CR or LF.
proof fn lemma_add_line(a: Seq<char>, text: Seq<char>)
    requires
        lines_of_text(a) || a.len() == 0,
        text.len() > 0,
        no_cr_lf(text),
    ensures
        lines_of_text(a + text + crlf()),
{
    let w = a + text + crlf();
    let n = a.len() + text.len();
    assert forall|k: int| 0 <= k < w.len() && #[trigger] w[k] == '\r' implies k > 0 && w[k - 1] != '\n' by {
        if k < a.len() {
            assert(w[k] == a[k]);
            assert(w[k - 1] == a[k - 1]);
        } else if k < n {
            assert(w[k] == text[k - a.len()]);
        } else {
            assert(k == n);
            assert(w[k - 1] == text[text.len() - 1]);
        }
    }
}

proof fn lemma_head_lines(status: u16, es: Seq<(Seq<char>, Seq<char>)>)
    requires
        forall|i: int| 0 <= i < es.len() ==> no_cr_lf(#[trigger] es[i].0) && no_cr_lf(es[i].1),
    ensures
        lines_of_text(status_line(status) + fields_text(es)),
    decreases es.len(),
{
    if es.len() == 0 {
        lemma_decimal_text(status as nat);
        lemma_reason_text(status);
        reveal_strlit("HTTP/1.1 ");
        let text = "HTTP/1.1 "@ + decimal(status as nat) + seq![' '] + reason(status);
        assert forall|k: int| 0 <= k < text.len() implies text[k] != '\r' && text[k] != '\n' by {
            let p = "HTTP/1.1 "@.len() + decimal(status as nat).len();
            if k >= p + 1 {
                assert(text[k] == reason(status)[k - p - 1]);
            } else if k >= "HTTP/1.1 "@.len() && k < p {
                assert(text[k] == decimal(status as nat)[k - "HTTP/1.1 "@.len()]);
            }
        }
        lemma_add_line(Seq::empty(), text);
        assert(Seq::<char>::empty() + text + crlf() =~= status_line(status));
        assert(status_line(status) + fields_text(es) =~= status_line(status));
    } else {
        let init = es.drop_last();
        assert forall|i: int| 0 <= i < init.len() implies no_cr_lf(#[trigger] init[i].0) && no_cr_lf(
            init[i].1,
        ) by {
            assert(init[i] == es[i]);
        }
        lemma_head_lines(status, init);
        let (name, value) = es.last();
        let text = name + seq![':', ' '] + value;
        assert forall|k: int| 0 <= k < text.len() implies text[k] != '\r' && text[k] != '\n' by {
            if k < name.len() {
                assert(text[k] == name[k]);
            } else if k >= name.len() + 2 {
                assert(text[k] == value[k - name.len() - 2]);
            }
        }
        lemma_add_line(status_line(status) + fields_text(init), text);
        assert(status_line(status) + fields_text(es) =~= status_line(status) + fields_text(init)
            + text + crlf());
    }
}

/// A serialized response holds `\r\n\r\n` exactly once, where the header
/// block ends and the body begins, when no header field and not the body
/// holds CR or LF.
pub proof fn lemma_one_blank_line(
    status: u16,
    es: Seq<(Seq<char>, Seq<char>)>,
    body: Seq<char>,
)
    requires
        forall|i: int| 0 <= i < es.len() ==> no_cr_lf(#[trigger] es[i].0) && no_cr_lf(es[i].1),
        no_cr_lf(body),
    ensures
        forall|k: int|
            blank_line_at(wire(status, es, body), k) <==> k + 4 == wire(status, es, body).len()
                - body.len(),
{
    lemma_head_lines(status, es);
    let h = status_line(status) + fields_text(es);
    let w = wire(status, es, body);
    assert(w == h + crlf() + body);
    let n = h.len() as int;
    assert forall|k: int| blank_line_at(w, k) <==> k + 4 == w.len() - body.len() by {
        if k + 4 == w.len() - body.len() {
            assert(w[k] == h[n - 2]);
            assert(w[k + 1] == h[n - 1]);
            assert(w[k + 2] == '\r');
            assert(w[k + 3] == '\n');
        }
        if blank_line_at(w, k) {
            if k + 4 <= n {
                assert(w[k + 2] == h[k + 2]);
                assert(w[k + 1] == h[k + 1]);
            } else if k == n - 3 {
                assert(w[k + 1] == h[n - 2]);
            } else if k == n - 1 {
                assert(w[k] == h[n - 1]);
            } else if k == n {
                assert(w[k + 2] == body[0]);
            } else if k == n + 1 {
                assert(w[k] == '\n');
            } else if k >= n + 2 {
                assert(w[k] == body[k - n - 2]);
            }
        }
    }
}

/// A response made by `new` and given a body by `json` holds `\r\n\r\n`
/// exactly once, at the end of its header block, when the body holds no CR
/// or LF (as compact JSON text never does).
pub proof fn lemma_built_response_one_blank_line(status: u16, body: Seq<char>)
    requires
        no_cr_lf(body),
    ensures
        ({
            let es = seq![
                (content_type_name(), json_media_type()),
                (content_length_name(), decimal(encode_utf8(body).len())),
            ];
            let w = wire(status, es, body);
            forall|k: int| blank_line_at(w, k) <==> k + 4 == w.len() - body.len()
        }),
{
    let es = seq![
        (content_type_name(), json_media_type()),
        (content_length_name(), decimal(encode_utf8(body).len())),
    ];
    reveal_strlit("Content-Type");
    reveal_strlit("application/json");
    lemma_decimal_text(encode_utf8(body).len());
    assert forall|i: int| 0 <= i < es.len() implies no_cr_lf(#[trigger] es[i].0) && no_cr_lf(
        es[i].1,
    ) by {
        if i == 0 {
            assert(no_cr_lf(content_type_name()));
            assert(no_cr_lf(json_media_type()));
        } else {
            assert(no_cr_lf(content_length_name()));
        }
    }
    lemma_one_blank_line(status, es, body);
}

/// A response made by `new` and given a body by `json` goes on the wire
/// with a `Content-Length` line that gives the body's length in UTF-8 bytes,
/// followed by the empty line and exactly that body.
pub proof fn lemma_built_response_wire(status: u16, body: Seq<char>)
    ensures
        wire(
            status,
            seq![
                (content_type_name(), json_media_type()),
                (content_length_name(), decimal(encode_utf8(body).len())),
            ],
            body,
        ) == status_line(status) + content_type_name() + seq![':', ' '] + json_media_type()
            + crlf() + content_length_name() + seq![':', ' '] + decimal(encode_utf8(body).len())
            + crlf() + crlf() + body,
{
    let es = seq![
        (content_type_name(), json_media_type()),
        (content_length_name(), decimal(encode_utf8(body).len())),
    ];
    assert(es.drop_last().drop_last() =~= Seq::<(Seq<char>, Seq<char>)>::empty());
    assert(es.drop_last().last() == (content_type_name(), json_media_type()));
    assert(fields_text(es.drop_last().drop_last()) =~= Seq::<char>::empty());
    assert(Seq::<char>::empty() + content_type_name() =~= content_type_name());
    assert(fields_text(es.drop_last()) =~= content_type_name() + seq![':', ' '] + json_media_type() + crlf());
    assert(wire(status, es, body) =~= status_line(status) + content_type_name() + seq![':', ' ']
        + json_media_type() + crlf() + content_length_name() + seq![':', ' '] + decimal(
        encode_utf8(body).len(),
    ) + crlf() + crlf() + body);
}

pub open spec fn content_type_name() -> Seq<char> {
    "Content-Type"@
}

pub open spec fn json_media_type() -> Seq<char> {
    "application/json"@
}

/// An HTTP response under construction.
pub struct Response {
    status: u16,
    headers: Headers,
    body: String,
}

impl Response {
    pub closed spec fn status_spec(&self) -> u16 {
        self.status
    }

    /// The header fields as a map.
    pub closed spec fn header_map(&self) -> Map<Seq<char>, Seq<char>> {
        self.headers@
    }

    /// The header fields in the order in which they are written.
    pub closed spec fn header_entries(&self) -> Seq<(Seq<char>, Seq<char>)> {
        self.headers.entry_view()
    }

    pub closed spec fn body_spec(&self) -> Seq<char> {
        self.body@
    }

    pub closed spec fn wf(&self) -> bool {
        self.headers.wf()
    }

    /// A response with `status`, an empty body and `Content-Type: application/json`.
    pub fn new(status: u16) -> (r: Response)
        ensures
            r.wf(),
            r.status_spec() == status,
            r.header_map() == map![content_type_name() => json_media_type()],
            r.header_entries() == seq![(content_type_name(), json_media_type())],
            r.body_spec() == Seq::<char>::empty(),
    {
        let mut headers = FieldMap::new();
        headers.insert("Content-Type".to_owned(), "application/json".to_owned());
        proof {
            assert(headers@ =~= map![content_type_name() => json_media_type()]);
            assert(headers.entry_view() =~= seq![(content_type_name(), json_media_type())]);
        }
        Response { status, headers, body: String::new() }
    }

    /// Takes the text that the JSON encoder produced as the body, and sets
    /// `Content-Length` to its length in bytes. Where encoding failed the body
    /// is empty.
    pub fn json(self, encoded: Result<String, serde_json::Error>) -> (r: Response)
        requires
            self.wf(),
        ensures
            r.wf(),
            r.status_spec() == self.status_spec(),
            r.body_spec() == (match encoded {
                Ok(s) => s@,
                Err(_) => Seq::<char>::empty(),
            }),
            r.header_map() == self.header_map().insert(
                content_length_name(),
                decimal(encode_utf8(r.body_spec()).len()),
            ),
            !self.header_map().contains_key(content_length_name()) ==> r.header_entries()
                == self.header_entries().push(
                (content_length_name(), decimal(encode_utf8(r.body_spec()).len())),
            ),
            self.header_map().contains_key(content_length_name()) ==> exists|i: int|
                0 <= i < self.header_entries().len() && self.header_entries()[i].0
                    == content_length_name() && r.header_entries() == self.header_entries().update(
                    i,
                    (content_length_name(), decimal(encode_utf8(r.body_spec()).len())),
                ),
    {
        let mut r = self;
        r.body = match encoded {
            Ok(s) => s,
            Err(_) => String::new(),
        };
        let mut n = String::new();
        push_decimal(&mut n, r.body.as_str().as_bytes().len());
        let name = "Content-Length".to_owned();
        proof {
            reveal_strlit("Content-Length");
            assert(name@ =~= content_length_name());
        }
        let ghost before = r.headers.entry_view();
        let ghost entry = (name@, n@);
        r.headers.insert(name, n);
        proof {
            if self.header_map().contains_key(content_length_name()) {
                let i = choose|i: int|
                    0 <= i < before.len() && before[i].0 == entry.0 && r.headers.entry_view()
                        == before.update(i, entry);
                assert(0 <= i < self.header_entries().len() && self.header_entries()[i].0
                    == content_length_name() && r.header_entries() == self.header_entries().update(
                    i,
                    (content_length_name(), decimal(encode_utf8(r.body_spec()).len())),
                ));
            }
        }
        r
    }

    /// The status code.
    pub fn status(&self) -> (r: u16)
        ensures
            r == self.status_spec(),
    {
        self.status
    }

    /// The header fields.
    pub fn headers(&self) -> (r: &Headers)
        ensures
            r@ == self.header_map(),
            r.entry_view() == self.header_entries(),
            self.wf() ==> r.wf(),
    {
        &self.headers
    }

    /// The body text.
    pub fn body(&self) -> (r: &String)
        ensures
            r@ == self.body_spec(),
    {
        &self.body
    }

    /// The response in HTTP/1.1 wire form.
    pub fn serialize(&self) -> (r: String)
        requires
            self.wf(),
        ensures
            r@ == wire(self.status_spec(), self.header_entries(), self.body_spec()),
    {
        let mut out = String::new();
        out.append("HTTP/1.1 ");
        push_decimal(&mut out, self.status as usize);
        out.append(" ");
        out.append(reason_phrase(self.status));
        out.append("\r\n");
        proof {
            reveal_strlit("\r\n");
            reveal_strlit(" ");
            reveal_strlit(": ");
            assert(out@ =~= status_line(self.status));
        }
        let ghost es = self.headers.entry_view();
        let mut i: usize = 0;
        while i < self.headers.len()
            invariant
                es == self.headers.entry_view(),
                i <= es.len(),
                out@ == status_line(self.status) + fields_text(es.take(i as int)),
            decreases es.len() - i,
        {
            let (k, v) = self.headers.entry(i);
            out.append(k.as_str());
            out.append(": ");
            out.append(v.as_str());
            out.append("\r\n");
            proof {
                reveal_strlit("\r\n");
                reveal_strlit(": ");
                assert(es.take(i + 1).drop_last() =~= es.take(i as int));
                assert(out@ =~= status_line(self.status) + fields_text(es.take(i + 1)));
            }
            i = i + 1;
        }
        assert(es.take(i as int) =~= es);
        out.append("\r\n");
        out.append(self.body.as_str());
        proof {
            reveal_strlit("\r\n");
        }
        assert(out@ =~= wire(self.status, es, self.body@));
        out
    }
}

} // verus!
