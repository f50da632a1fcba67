//! The chat API protocol: the HTTPS endpoint a user enters, the HTTP request
//! that carries a chat or a model listing, the framing of the HTTP reply, and
//! the text shown for it.
use vstd::prelude::*;
use vstd::utf8::{
    valid_utf8, decode_utf8, encode_utf8, encode_scalar, has_width_1_encoding, is_ascii_chars,
    is_ascii_chars_encode_utf8, encode_utf8_valid_utf8, encode_utf8_decode_utf8,
};
use crate::text::{
    is_space, blank_line, crlf, eq_ignore_case, eq_ignore_case_exec, find_from, find_char, find_char_exec,
    find_line_break, find_line_break_exec, find_crlf, find_blank_line, lemma_find_from_bounds,
    lemma_find_from_prefix, lemma_find_char_bounds, lemma_find_char_skip, lemma_find_char_first,
    lemma_find_line_break_bounds, lemma_find_line_break_skip, lemma_dec_chars, ascii_lower,
    trim_back, parse_unsigned, is_digit, all_digits, dec_value, parse_bounded, starts_at, lemma_find_from_skip,
    lemma_ascii_valid_utf8, is_hex_digit, hex_value, hex_digit_value, all_hex_digits,
    parse_decimal, parse_hex, parse_hex_exec, skip_space, token_end, skip_space_exec,
    token_end_exec, trim, trim_span, chars_of, chars_eq, utf8_chars, push_str, push_chars,
    push_decimal, dec_chars, string_from_chars,
};
use crate::json::{
    json_parses, parses_as_json, json_string_literal, quote_json, JsonValue, member, element,
    string_of, array_of, get_member, get_element, get_str, get_array, json_document, read_json,
};

verus! {

/// The most bytes of an HTTP reply that are read.
pub const MAX_RESPONSE: usize = 256 * 1024;

/// The most bytes an HTTP request may take.
pub const MAX_REQUEST: usize = 14 * 1024;

/// The most bytes before the blank line that ends an HTTP reply's header.
pub const MAX_HEADER: usize = 16384;

/// A complete HTTP reply: its status code and its decoded body.
pub struct Response {
    pub status: u16,
    pub body: Vec<u8>,
}

// ---------------------------------------------------------------------------
// Chunked transfer coding
// ---------------------------------------------------------------------------

pub open spec fn saturating_sub(a: nat, b: nat) -> nat {
    if a >= b {
        (a - b) as nat
    } else {
        0
    }
}

/// The part of a chunk-size line that holds the size: what precedes the first `;`.
pub open spec fn size_field(line: Seq<u8>) -> Seq<u8> {
    match find_from(line, seq![59u8], 0) {
        Some(j) => line.subrange(0, j),
        None => line,
    }
}

pub open spec fn starts_with_crlf(s: Seq<u8>) -> bool {
    s.len() >= 2 && s.subrange(0, 2) == crlf()
}

/// Decoding the chunked body `data`, after `out` was already decoded:
/// `Ok(None)` while more bytes are needed, `Ok(Some(body))` once the last chunk
/// and the end of its trailer have arrived, `Err` on a malformed or oversized body.
pub open spec fn chunks_spec(data: Seq<u8>, out: Seq<u8>) -> Result<Option<Seq<u8>>, &'static str>
    decreases data.len(),
{
    match find_from(data, crlf(), 0) {
        None => Ok(None),
        Some(p) => {
            proof {
                lemma_find_from_bounds(data, crlf(), 0);
            }
            let line = data.subrange(0, p);
            let rest = data.subrange(p + 2, data.len() as int);
            if !valid_utf8(line) {
                Err("Invalid chunk length.")
            } else {
                match parse_hex(size_field(line)) {
                    None => Err("Invalid chunk length."),
                    Some(size) => if size == 0 {
                        if starts_with_crlf(rest) || find_from(rest, blank_line(), 0) is Some {
                            Ok(Some(out))
                        } else {
                            Ok(None)
                        }
                    } else if size > saturating_sub(MAX_RESPONSE as nat, out.len()) {
                        Err("Response is too large.")
                    } else if rest.len() < size + 2 {
                        Ok(None)
                    } else if rest.subrange(size as int, (size + 2) as int) != crlf() {
                        Err("Invalid chunk boundary.")
                    } else {
                        chunks_spec(
                            rest.subrange((size + 2) as int, rest.len() as int),
                            out + rest.subrange(0, size as int),
                        )
                    },
                }
            }
        },
    }
}

pub open spec fn chunks_view(r: Result<Option<Vec<u8>>, &'static str>) -> Result<
    Option<Seq<u8>>,
    &'static str,
> {
    match r {
        Ok(Some(b)) => Ok(Some(b@)),
        Ok(None) => Ok(None),
        Err(e) => Err(e),
    }
}

fn find_semicolon(s: &[u8]) -> (r: usize)
    ensures
        r <= s@.len(),
        s@.subrange(0, r as int) == size_field(s@),
{
    let mut i: usize = 0;
    while i < s.len()
        invariant
            i <= s@.len(),
            find_from(s@, seq![59u8], 0) == find_from(s@, seq![59u8], i as int),
        decreases s@.len() - i,
    {
        if s[i] == 59u8 {
            assert(s@.subrange(i as int, i + 1) =~= seq![59u8]);
            return i;
        }
        assert(s@.subrange(i as int, i + 1) != seq![59u8]) by {
            assert(s@.subrange(i as int, i + 1)[0] == s@[i as int]);
        }
        i = i + 1;
    }
    assert(s@.subrange(0, s@.len() as int) =~= s@);
    s.len()
}

/// Decodes a chunked HTTP body: `Ok(None)` while more bytes are needed.
pub fn chunks(data: &[u8]) -> (r: Result<Option<Vec<u8>>, &'static str>)
    ensures
        chunks_view(r) == chunks_spec(data@, seq![]),
{
    let mut out: Vec<u8> = Vec::new();
    let mut pos: usize = 0;
    assert(data@.subrange(0, data@.len() as int) =~= data@);
    while pos <= data.len()
        invariant
            pos <= data@.len(),
            out@.len() <= MAX_RESPONSE,
            chunks_spec(data@, seq![]) == chunks_spec(
                data@.subrange(pos as int, data@.len() as int),
                out@,
            ),
        decreases data@.len() - pos,
    {
        let d = &data[pos..data.len()];
        let p = match find_crlf(d, 0) {
            None => {
                return Ok(None);
            },
            Some(p) => p,
        };
        proof {
            lemma_find_from_bounds(d@, crlf(), 0);
        }
        let line = &d[0..p];
        if utf8_chars(line).is_none() {
            return Err("Invalid chunk length.");
        }
        let field_end = find_semicolon(line);
        let field = &line[0..field_end];
        let size = match parse_hex_exec(field) {
            None => {
                return Err("Invalid chunk length.");
            },
            Some(v) => v,
        };
        let rest = &d[p + 2..d.len()];
        if size == 0 {
            let starts = rest.len() >= 2 && rest[0] == 13 && rest[1] == 10;
            proof {
                if rest@.len() >= 2 {
                    let w = rest@.subrange(0, 2);
                    assert(w[0] == rest@[0] && w[1] == rest@[1]);
                    if rest@[0] == 13 && rest@[1] == 10 {
                        assert(w =~= crlf());
                    }
                }
            }
            if starts || find_blank_line(rest, 0).is_some() {
                return Ok(Some(out));
            } else {
                return Ok(None);
            }
        }
        let room: usize = if out.len() <= MAX_RESPONSE {
            MAX_RESPONSE - out.len()
        } else {
            0
        };
        if size > room {
            return Err("Response is too large.");
        }
        if rest.len() < size + 2 {
            return Ok(None);
        }
        if !(rest[size] == 13 && rest[size + 1] == 10) {
            assert(rest@.subrange(size as int, size + 2) != crlf()) by {
                let w = rest@.subrange(size as int, size + 2);
                assert(w[0] == rest@[size as int] && w[1] == rest@[size + 1]);
            }
            return Err("Invalid chunk boundary.");
        }
        assert(rest@.subrange(size as int, size + 2) =~= crlf());
        let ghost old_out = out@;
        let mut k: usize = 0;
        while k < size
            invariant
                k <= size,
                size + 2 <= rest@.len(),
                out@ == old_out + rest@.subrange(0, k as int),
            decreases size - k,
        {
            out.push(rest[k]);
            k = k + 1;
            assert(out@ =~= old_out + rest@.subrange(0, k as int));
        }
        let next = pos + p + 2 + size + 2;
        assert(data@.subrange(next as int, data@.len() as int) =~= rest@.subrange(
            size + 2,
            rest@.len() as int,
        ));
        pos = next;
    }
    Ok(None)
}

// ---------------------------------------------------------------------------
// The HTTP reply header
// ---------------------------------------------------------------------------

/// The status code of an HTTP status line: its first whitespace-separated word
/// must be `HTTP/1.1` or `HTTP/1.0`, its second a decimal number that fits `u16`.
pub open spec fn status_spec(line: Seq<char>) -> Option<u16> {
    let a = skip_space(line, 0);
    let b = token_end(line, a);
    let c = skip_space(line, b);
    let d = token_end(line, c);
    if a >= line.len() {
        None
    } else if line.subrange(a, b) != "HTTP/1.1"@ && line.subrange(a, b) != "HTTP/1.0"@ {
        None
    } else if c >= line.len() {
        None
    } else {
        match parse_bounded(line.subrange(c, d), 0xffff) {
            Some(v) => Some(v as u16),
            None => None,
        }
    }
}

/// What one header line adds to the framing read so far (`length`, `chunked`).
pub open spec fn field_spec(l: Seq<char>, length: Option<nat>, chunked: bool) -> Result<
    (Option<nat>, bool),
    &'static str,
> {
    match find_char(l, ':', 0) {
        None => Err("Invalid HTTP header."),
        Some(c) => {
            let k = l.subrange(0, c);
            let v = trim(l.subrange(c + 1, l.len() as int));
            let is_length = eq_ignore_case(k, "content-length"@);
            let is_transfer = eq_ignore_case(k, "transfer-encoding"@);
            let is_encoding = eq_ignore_case(k, "content-encoding"@);
            if is_length && (length is Some || parse_bounded(v, MAX_RESPONSE as nat) is None) {
                Err("Invalid response length.")
            } else if is_transfer && !eq_ignore_case(v, "chunked"@) {
                Err("Unsupported transfer encoding.")
            } else if is_encoding && !eq_ignore_case(v, "identity"@) {
                Err("Compressed API responses are not supported.")
            } else {
                let length2 = if is_length {
                    parse_bounded(v, MAX_RESPONSE as nat)
                } else {
                    length
                };
                Ok((length2, chunked || is_transfer))
            }
        },
    }
}

/// The header lines from position `i` on, each ended by CR LF except the last.
pub open spec fn fields_spec(h: Seq<char>, i: int, length: Option<nat>, chunked: bool) -> Result<
    (Option<nat>, bool),
    &'static str,
>
    decreases h.len() - i,
{
    let e = find_line_break(h, i);
    let end = match e {
        Some(x) => x,
        None => h.len() as int,
    };
    match field_spec(h.subrange(i, end), length, chunked) {
        Err(m) => Err(m),
        Ok((length2, chunked2)) => match e {
            None => Ok((length2, chunked2)),
            Some(x) => {
                proof {
                    if i >= 0 {
                        lemma_find_line_break_bounds(h, i);
                    }
                }
                if i < 0 {
                    Ok((length2, chunked2))
                } else {
                    fields_spec(h, x + 2, length2, chunked2)
                }
            },
        },
    }
}

/// The header block: the status, the declared length, whether the body is chunked.
pub open spec fn head_spec(h: Seq<char>) -> Result<(u16, Option<nat>, bool), &'static str> {
    let e = find_line_break(h, 0);
    let first = match e {
        Some(x) => h.subrange(0, x),
        None => h,
    };
    match status_spec(first) {
        None => Err("Invalid HTTP status."),
        Some(st) => match e {
            None => Ok((st, None, false)),
            Some(x) => match fields_spec(h, x + 2, None, false) {
                Err(m) => Err(m),
                Ok((length, chunked)) => Ok((st, length, chunked)),
            },
        },
    }
}

/// Reading the bytes of an HTTP reply received so far: `Ok(None)` while the reply
/// is incomplete, `Ok(Some((status, body)))` once it is complete, `Err` when it
/// can never become a valid reply.
pub open spec fn response_spec(raw: Seq<u8>) -> Result<Option<(u16, Seq<u8>)>, &'static str> {
    if raw.len() > MAX_RESPONSE {
        Err("Response is too large.")
    } else {
        match find_from(raw, blank_line(), 0) {
            None => Ok(None),
            Some(at) => if at > MAX_HEADER {
                Err("HTTP headers are too large.")
            } else if !valid_utf8(raw.subrange(0, at)) {
                Err("Invalid HTTP response.")
            } else {
                match head_spec(decode_utf8(raw.subrange(0, at))) {
                    Err(m) => Err(m),
                    Ok((status, length, chunked)) => {
                        let payload = raw.subrange(at + 4, raw.len() as int);
                        if chunked && length is Some {
                            Err("Ambiguous HTTP response.")
                        } else if chunked {
                            match chunks_spec(payload, seq![]) {
                                Err(m) => Err(m),
                                Ok(None) => Ok(None),
                                Ok(Some(b)) => Ok(Some((status, b))),
                            }
                        } else {
                            match length {
                                Some(n) => if payload.len() < n {
                                    Ok(None)
                                } else {
                                    Ok(Some((status, payload.subrange(0, n as int))))
                                },
                                None => if json_parses(payload) {
                                    Ok(Some((status, payload)))
                                } else {
                                    Ok(None)
                                },
                            }
                        }
                    },
                }
            },
        }
    }
}

pub open spec fn response_view(r: Result<Option<Response>, &'static str>) -> Result<
    Option<(u16, Seq<u8>)>,
    &'static str,
> {
    match r {
        Ok(Some(resp)) => Ok(Some((resp.status, resp.body@))),
        Ok(None) => Ok(None),
        Err(e) => Err(e),
    }
}

fn status_line(line: &[char]) -> (r: Option<u16>)
    ensures
        r == status_spec(line@),
{
    let a = skip_space_exec(line, 0);
    let b = token_end_exec(line, a);
    let c = skip_space_exec(line, b);
    let d = token_end_exec(line, c);
    if a >= line.len() {
        return None;
    }
    let v11 = chars_of("HTTP/1.1");
    let v10 = chars_of("HTTP/1.0");
    let word = &line[a..b];
    if !chars_eq(word, v11.as_slice()) && !chars_eq(word, v10.as_slice()) {
        return None;
    }
    if c >= line.len() {
        return None;
    }
    match parse_decimal(&line[c..d], 0xffff) {
        Some(v) => Some(v as u16),
        None => None,
    }
}

pub open spec fn opt_nat(o: Option<usize>) -> Option<nat> {
    match o {
        Some(x) => Some(x as nat),
        None => None,
    }
}

pub open spec fn field_view(r: Result<(Option<usize>, bool), &'static str>) -> Result<
    (Option<nat>, bool),
    &'static str,
> {
    match r {
        Ok((n, c)) => Ok((opt_nat(n), c)),
        Err(m) => Err(m),
    }
}

pub open spec fn head_view(r: Result<(u16, Option<usize>, bool), &'static str>) -> Result<
    (u16, Option<nat>, bool),
    &'static str,
> {
    match r {
        Ok((st, n, c)) => Ok((st, opt_nat(n), c)),
        Err(m) => Err(m),
    }
}

pub open spec fn with_status(st: u16, r: Result<(Option<nat>, bool), &'static str>) -> Result<
    (u16, Option<nat>, bool),
    &'static str,
> {
    match r {
        Ok((n, c)) => Ok((st, n, c)),
        Err(m) => Err(m),
    }
}

pub open spec fn length_in_bounds(r: Result<(Option<usize>, bool), &'static str>) -> bool {
    r matches Ok((Some(x), _)) ==> x <= MAX_RESPONSE
}

fn header_field(l: &[char], length: Option<usize>, chunked: bool) -> (r: Result<
    (Option<usize>, bool),
    &'static str,
>)
    requires
        length matches Some(n) ==> n <= MAX_RESPONSE,
    ensures
        field_view(r) == field_spec(l@, opt_nat(length), chunked),
        length_in_bounds(r),
{
    let colon = match find_char_exec(l, ':', 0) {
        None => {
            return Err("Invalid HTTP header.");
        },
        Some(c) => c,
    };
    let n = l.len();
    let k = &l[0..colon];
    let raw_v = &l[colon + 1..n];
    let (lo, hi) = trim_span(raw_v);
    let v = &raw_v[lo..hi];
    let name_length = chars_of("content-length");
    let name_transfer = chars_of("transfer-encoding");
    let name_encoding = chars_of("content-encoding");
    let word_chunked = chars_of("chunked");
    let word_identity = chars_of("identity");
    let is_length = eq_ignore_case_exec(k, name_length.as_slice());
    let is_transfer = eq_ignore_case_exec(k, name_transfer.as_slice());
    let is_encoding = eq_ignore_case_exec(k, name_encoding.as_slice());
    let parsed = parse_decimal(v, MAX_RESPONSE as u64);
    if is_length && (length.is_some() || parsed.is_none()) {
        return Err("Invalid response length.");
    }
    if is_transfer && !eq_ignore_case_exec(v, word_chunked.as_slice()) {
        return Err("Unsupported transfer encoding.");
    }
    if is_encoding && !eq_ignore_case_exec(v, word_identity.as_slice()) {
        return Err("Compressed API responses are not supported.");
    }
    let length2 = if is_length {
        match parsed {
            Some(n) => Some(n as usize),
            None => None,
        }
    } else {
        length
    };
    Ok((length2, chunked || is_transfer))
}

fn head(h: &[char]) -> (r: Result<(u16, Option<usize>, bool), &'static str>)
    ensures
        head_view(r) == head_spec(h@),
        r matches Ok((_, Some(x), _)) ==> x <= MAX_RESPONSE,
{
    let n = h.len();
    let e = find_line_break_exec(h, 0);
    let first_end = match e {
        Some(x) => x,
        None => h.len(),
    };
    assert(h@.subrange(0, h@.len() as int) =~= h@);
    let status = match status_line(&h[0..first_end]) {
        None => {
            return Err("Invalid HTTP status.");
        },
        Some(s) => s,
    };
    let mut i: usize = match e {
        None => {
            return Ok((status, None, false));
        },
        Some(x) => x + 2,
    };
    let mut length: Option<usize> = None;
    let mut chunked = false;
    loop
        invariant
            i <= h@.len(),
            n == h@.len(),
            length matches Some(x) ==> x <= MAX_RESPONSE,
            head_spec(h@) == with_status(status, fields_spec(h@, i as int, opt_nat(length), chunked)),
        decreases h@.len() - i,
    {
        let e = find_line_break_exec(h, i);
        let end = match e {
            Some(x) => x,
            None => h.len(),
        };
        let res = header_field(&h[i..end], length, chunked);
        proof {
            reveal_with_fuel(fields_spec, 1);
        }
        let (length2, chunked2) = match res {
            Err(m) => {
                return Err(m);
            },
            Ok(v) => v,
        };
        match e {
            None => {
                return Ok((status, length2, chunked2));
            },
            Some(x) => {
                i = x + 2;
                length = length2;
                chunked = chunked2;
            },
        }
    }
}

/// Reads the bytes of an HTTP reply received so far. `Ok(None)` means that more
/// bytes are needed; the body is framed by `Content-Length`, by chunked transfer
/// coding, or, without either, by the end of one complete JSON value.
pub fn response(raw: &[u8]) -> (r: Result<Option<Response>, &'static str>)
    ensures
        response_view(r) == response_spec(raw@),
{
    if raw.len() > MAX_RESPONSE {
        return Err("Response is too large.");
    }
    let at = match find_blank_line(raw, 0) {
        None => {
            return Ok(None);
        },
        Some(a) => a,
    };
    proof {
        lemma_find_from_bounds(raw@, blank_line(), 0);
    }
    if at > MAX_HEADER {
        return Err("HTTP headers are too large.");
    }
    let header = match utf8_chars(&raw[0..at]) {
        None => {
            return Err("Invalid HTTP response.");
        },
        Some(h) => h,
    };
    let (status, length, chunked) = match head(header.as_slice()) {
        Err(m) => {
            return Err(m);
        },
        Ok(v) => v,
    };
    if chunked && length.is_some() {
        return Err("Ambiguous HTTP response.");
    }
    let payload = &raw[at + 4..raw.len()];
    let body: Vec<u8> = if chunked {
        match chunks(payload) {
            Err(m) => {
                return Err(m);
            },
            Ok(None) => {
                return Ok(None);
            },
            Ok(Some(b)) => b,
        }
    } else {
        match length {
            Some(n) => {
                if payload.len() < n {
                    return Ok(None);
                }
                vstd::slice::slice_to_vec(&payload[0..n])
            },
            None => {
                if !parses_as_json(payload) {
                    return Ok(None);
                }
                vstd::slice::slice_to_vec(payload)
            },
        }
    };
    Ok(Some(Response { status, body }))
}

// ---------------------------------------------------------------------------
// The endpoint
// ---------------------------------------------------------------------------

/// An HTTPS API base URL, split into what a connection and a request need.
pub struct Endpoint {
    /// The DNS name or IPv4 literal to connect to.
    pub host: String,
    /// `host`, with `:port` when the URL gave one, as the `Host` header carries it.
    pub authority: String,
    pub port: u16,
    /// The path prefix without a trailing `/`: empty, or starting with `/`.
    pub base: String,
}

/// A character a URL may hold after `https://`: printable ASCII other than
/// space, without user info (`@`), fragment (`#`), query (`?`) or `\`.
pub open spec fn url_char_ok(c: char) -> bool {
    let u = c as u32;
    &&& 32 < u < 127
    &&& c != '@'
    &&& c != '#'
    &&& c != '?'
    &&& c != '\\'
}

pub open spec fn all_url_chars(s: Seq<char>) -> bool {
    forall|i: int| 0 <= i < s.len() ==> url_char_ok(s[i])
}

pub open spec fn is_alnum(c: char) -> bool {
    let u = c as u32;
    (48 <= u <= 57) || (65 <= u <= 90) || (97 <= u <= 122)
}

pub open spec fn label_chars(l: Seq<char>) -> bool {
    forall|i: int| 0 <= i < l.len() ==> is_alnum(l[i]) || l[i] == '-'
}

/// A DNS label: 1 to 63 ASCII letters, digits or hyphens, not starting or
/// ending with a hyphen.
pub open spec fn label_ok(l: Seq<char>) -> bool {
    &&& 0 < l.len() <= 63
    &&& l[0] != '-'
    &&& l.last() != '-'
    &&& label_chars(l)
}

/// Every `.`-separated label of `h` from position `i` on is valid.
pub open spec fn labels_ok(h: Seq<char>, i: int) -> bool
    decreases h.len() - i,
{
    match find_char(h, '.', i) {
        Some(j) => {
            proof {
                if i >= 0 {
                    lemma_find_char_bounds(h, '.', i);
                }
            }
            if i < 0 {
                false
            } else {
                label_ok(h.subrange(i, j)) && labels_ok(h, j + 1)
            }
        },
        None => label_ok(h.subrange(i, h.len() as int)),
    }
}

pub open spec fn host_ok(h: Seq<char>) -> bool {
    0 < h.len() <= 253 && labels_ok(h, 0)
}

/// The end of `p[..j]` once trailing `/` are dropped.
pub open spec fn slash_end(p: Seq<char>, j: int) -> int
    decreases j,
{
    if j > 0 && p[j - 1] == '/' {
        slash_end(p, j - 1)
    } else {
        j
    }
}

/// The path after the authority, as a prefix: trailing `/` dropped, then `/` put
/// in front unless nothing is left.
pub open spec fn base_path(path: Seq<char>) -> Seq<char> {
    let kept = path.subrange(0, slash_end(path, path.len() as int));
    if kept.len() == 0 {
        Seq::empty()
    } else {
        seq!['/'] + kept
    }
}

/// Parsing a user-entered API URL into (host, authority, port, base).
pub open spec fn endpoint_spec(raw: Seq<char>) -> Result<
    (Seq<char>, Seq<char>, u16, Seq<char>),
    &'static str,
> {
    let t = trim(raw);
    if !(t.len() >= 8 && t.subrange(0, 8) == "https://"@) {
        Err("Please enter an HTTPS API URL.")
    } else {
        let rest = t.subrange(8, t.len() as int);
        if !all_url_chars(rest) {
            Err("Invalid API URL.")
        } else {
            let slash = find_char(rest, '/', 0);
            let authority = match slash {
                Some(j) => rest.subrange(0, j),
                None => rest,
            };
            let path = match slash {
                Some(j) => rest.subrange(j + 1, rest.len() as int),
                None => Seq::empty(),
            };
            let colon = find_char(authority, ':', 0);
            let host = match colon {
                Some(j) => authority.subrange(0, j),
                None => authority,
            };
            let port = match colon {
                Some(j) => parse_bounded(authority.subrange(j + 1, authority.len() as int), 0xffff),
                None => Some(443nat),
            };
            match port {
                None => Err("Invalid port."),
                Some(p) => if p == 0 || !host_ok(host) {
                    Err("Invalid hostname (IPv6 is not supported yet).")
                } else {
                    Ok((host, authority, p as u16, base_path(path)))
                },
            }
        }
    }
}

pub open spec fn endpoint_view(r: Result<Endpoint, &'static str>) -> Result<
    (Seq<char>, Seq<char>, u16, Seq<char>),
    &'static str,
> {
    match r {
        Ok(e) => Ok((e.host@, e.authority@, e.port, e.base@)),
        Err(m) => Err(m),
    }
}

fn label_valid(l: &[char]) -> (r: bool)
    ensures
        r == label_ok(l@),
{
    if l.len() == 0 || l.len() > 63 || l[0] == '-' || l[l.len() - 1] == '-' {
        return false;
    }
    let mut i: usize = 0;
    while i < l.len()
        invariant
            i <= l@.len(),
            forall|k: int| 0 <= k < i ==> is_alnum(l@[k]) || l@[k] == '-',
        decreases l@.len() - i,
    {
        let u = l[i] as u32;
        if !((48 <= u && u <= 57) || (65 <= u && u <= 90) || (97 <= u && u <= 122) || l[i] == '-') {
            assert(!label_chars(l@)) by {
                assert(!(is_alnum(l@[i as int]) || l@[i as int] == '-'));
            }
            return false;
        }
        i = i + 1;
    }
    true
}

fn host_valid(h: &[char]) -> (r: bool)
    ensures
        r == host_ok(h@),
{
    let n = h.len();
    if n == 0 || n > 253 {
        return false;
    }
    let mut i: usize = 0;
    loop
        invariant
            i <= h@.len(),
            n == h@.len(),
            0 < n <= 253,
            labels_ok(h@, 0) == labels_ok(h@, i as int),
        decreases h@.len() - i,
    {
        match find_char_exec(h, '.', i) {
            Some(j) => {
                if !label_valid(&h[i..j]) {
                    return false;
                }
                i = j + 1;
            },
            None => {
                return label_valid(&h[i..n]);
            },
        }
    }
}

fn all_url_chars_exec(s: &[char]) -> (r: bool)
    ensures
        r == all_url_chars(s@),
{
    let mut i: usize = 0;
    while i < s.len()
        invariant
            i <= s@.len(),
            forall|k: int| 0 <= k < i ==> url_char_ok(s@[k]),
        decreases s@.len() - i,
    {
        let c = s[i];
        let u = c as u32;
        if !(32 < u && u < 127 && c != '@' && c != '#' && c != '?' && c != '\\') {
            assert(!url_char_ok(s@[i as int]));
            return false;
        }
        i = i + 1;
    }
    true
}

impl Endpoint {
    /// Parses a user-entered API base URL such as `https://api.openai.com/v1`.
    /// Surrounding whitespace is ignored; only HTTPS, a DNS name or IPv4 literal,
    /// an optional port and a path prefix are accepted.
    pub fn parse(raw: &str) -> (r: Result<Self, &'static str>)
        ensures
            endpoint_view(r) == endpoint_spec(raw@),
    {
        let all = chars_of(raw);
        let (lo, hi) = trim_span(all.as_slice());
        let t = &all.as_slice()[lo..hi];
        let scheme = chars_of("https://");
        if !(t.len() >= 8 && chars_eq(&t[0..8], scheme.as_slice())) {
            return Err("Please enter an HTTPS API URL.");
        }
        let tn = t.len();
        let rest = &t[8..tn];
        if !all_url_chars_exec(rest) {
            return Err("Invalid API URL.");
        }
        let rn = rest.len();
        let slash = find_char_exec(rest, '/', 0);
        let authority: &[char] = match slash {
            Some(j) => &rest[0..j],
            None => rest,
        };
        let path: &[char] = match slash {
            Some(j) => &rest[j + 1..rn],
            None => &rest[0..0],
        };
        assert(rest@.subrange(0, 0) =~= Seq::<char>::empty());
        let an = authority.len();
        let colon = find_char_exec(authority, ':', 0);
        let host: &[char] = match colon {
            Some(j) => &authority[0..j],
            None => authority,
        };
        let port: u16 = match colon {
            Some(j) => match parse_decimal(&authority[j + 1..an], 0xffff) {
                Some(p) => p as u16,
                None => {
                    return Err("Invalid port.");
                },
            },
            None => 443,
        };
        if port == 0 || !host_valid(host) {
            return Err("Invalid hostname (IPv6 is not supported yet).");
        }
        let mut keep = path.len();
        while keep > 0 && path[keep - 1] == '/'
            invariant
                keep <= path@.len(),
                slash_end(path@, path@.len() as int) == slash_end(path@, keep as int),
            decreases keep,
        {
            keep = keep - 1;
        }
        let mut base: Vec<char> = Vec::new();
        if keep > 0 {
            base.push('/');
            push_chars(&mut base, &path[0..keep]);
        }
        assert(base@ =~= base_path(path@));
        Ok(Endpoint {
            host: string_from_chars(host),
            authority: string_from_chars(authority),
            port,
            base: string_from_chars(base.as_slice()),
        })
    }
}

// ---------------------------------------------------------------------------
// The request
// ---------------------------------------------------------------------------

/// One turn of the conversation.
pub struct Message {
    /// `user` or `assistant`.
    pub role: &'static str,
    pub text: String,
}

/// An API key may be sent as a bearer token: 1 to 4096 bytes of visible ASCII.
pub open spec fn key_ok(k: Seq<u8>) -> bool {
    &&& 0 < k.len() <= 4096
    &&& forall|i: int| 0 <= i < k.len() ==> 33 <= #[trigger] k[i] <= 126
}

/// A message as (role, text).
pub open spec fn message_view(m: Message) -> (Seq<char>, Seq<char>) {
    (m.role@, m.text@)
}

pub open spec fn message_views(ms: Seq<Message>) -> Seq<(Seq<char>, Seq<char>)> {
    ms.map_values(|m: Message| message_view(m))
}

/// One message (role, text) as a JSON object, members in the order
/// `serde_json` writes a map.
pub open spec fn message_row(m: (Seq<char>, Seq<char>)) -> Seq<char> {
    "{\"content\":"@ + json_string_literal(m.1) + ",\"role\":"@ + json_string_literal(m.0) + "}"@
}

/// The messages as the members of a JSON array, separated by commas.
pub open spec fn message_rows(ms: Seq<(Seq<char>, Seq<char>)>) -> Seq<char>
    decreases ms.len(),
{
    if ms.len() == 0 {
        Seq::empty()
    } else if ms.len() == 1 {
        message_row(ms[0])
    } else {
        message_rows(ms.drop_last()) + ","@ + message_row(ms.last())
    }
}

/// The JSON body of a chat completion request.
pub open spec fn chat_body(model: Seq<char>, ms: Seq<(Seq<char>, Seq<char>)>) -> Seq<char> {
    "{\"messages\":["@ + message_rows(ms) + "],\"model\":"@ + json_string_literal(model)
        + ",\"stream\":false}"@
}

/// The text of the HTTP request: `GET <base>/models` for a model listing,
/// `POST <base>/chat/completions` with a JSON body for a chat.
pub open spec fn request_text(
    authority: Seq<char>,
    base: Seq<char>,
    key: Seq<char>,
    model: Seq<char>,
    ms: Seq<(Seq<char>, Seq<char>)>,
    models: bool,
) -> Seq<char> {
    let body = if models {
        Seq::empty()
    } else {
        chat_body(trim(model), ms)
    };
    let method = if models {
        "GET"@
    } else {
        "POST"@
    };
    let suffix = if models {
        "/models"@
    } else {
        "/chat/completions"@
    };
    method + " "@ + base + suffix + " HTTP/1.1\r\nHost: "@ + authority
        + "\r\nAuthorization: Bearer "@ + key
        + "\r\nContent-Type: application/json\r\nAccept: application/json\r\nAccept-Encoding: identity\r\nConnection: close\r\nContent-Length: "@
        + dec_chars(encode_utf8(body).len()) + "\r\n\r\n"@ + body
}

/// The request bytes, or why none can be sent.
pub open spec fn request_spec(
    authority: Seq<char>,
    base: Seq<char>,
    key: Seq<char>,
    model: Seq<char>,
    ms: Seq<(Seq<char>, Seq<char>)>,
    models: bool,
) -> Result<Seq<u8>, &'static str> {
    if !key_ok(encode_utf8(key)) {
        Err("API key is missing or contains invalid characters.")
    } else if !models && (trim(model).len() == 0 || encode_utf8(model).len() > 256) {
        Err("Please enter a model ID.")
    } else {
        let bytes = encode_utf8(request_text(authority, base, key, model, ms, models));
        if bytes.len() > MAX_REQUEST {
            Err("Chat is too long. Please start a new chat.")
        } else {
            Ok(bytes)
        }
    }
}

pub open spec fn bytes_view(r: Result<Vec<u8>, &'static str>) -> Result<Seq<u8>, &'static str> {
    match r {
        Ok(v) => Ok(v@),
        Err(m) => Err(m),
    }
}

fn key_valid(k: &[u8]) -> (r: bool)
    ensures
        r == key_ok(k@),
{
    if k.len() == 0 || k.len() > 4096 {
        return false;
    }
    let mut i: usize = 0;
    while i < k.len()
        invariant
            i <= k@.len(),
            forall|j: int| 0 <= j < i ==> 33 <= #[trigger] k@[j] <= 126,
        decreases k@.len() - i,
    {
        if !(33 <= k[i] && k[i] <= 126) {
            return false;
        }
        i = i + 1;
    }
    true
}

/// Builds the JSON body of a chat request for the trimmed model name.
fn chat_body_exec(model: &[char], messages: &[Message]) -> (r: Vec<char>)
    ensures
        r@ == chat_body(model@, message_views(messages@)),
{
    let mut body: Vec<char> = Vec::new();
    push_str(&mut body, "{\"messages\":[");
    let ghost head = "{\"messages\":["@;
    assert(body@ =~= head);
    let mut i: usize = 0;
    while i < messages.len()
        invariant
            i <= messages@.len(),
            head == "{\"messages\":["@,
            body@ == head + message_rows(message_views(messages@).subrange(0, i as int)),
        decreases messages@.len() - i,
    {
        let ghost before = body@;
        if i > 0 {
            push_str(&mut body, ",");
        }
        push_str(&mut body, "{\"content\":");
        let text = quote_json(messages[i].text.as_str());
        push_str(&mut body, text.as_str());
        push_str(&mut body, ",\"role\":");
        let role = quote_json(messages[i].role);
        push_str(&mut body, role.as_str());
        push_str(&mut body, "}");
        proof {
            let prev = message_views(messages@).subrange(0, i as int);
            let next = message_views(messages@).subrange(0, i + 1);
            assert(next.drop_last() =~= prev);
            assert(next.last() == message_view(messages@[i as int]));
            if i == 0 {
                assert(next.len() == 1);
                assert(message_rows(prev) =~= Seq::<char>::empty());
                assert(body@ =~= head + message_rows(next));
            } else {
                assert(body@ =~= head + message_rows(next));
            }
        }
        i = i + 1;
    }
    assert(message_views(messages@).subrange(0, messages@.len() as int) =~= message_views(
        messages@,
    ));
    push_str(&mut body, "],\"model\":");
    let name = string_from_chars(model);
    let quoted = quote_json(name.as_str());
    push_str(&mut body, quoted.as_str());
    push_str(&mut body, ",\"stream\":false}");
    assert(body@ =~= chat_body(model@, message_views(messages@)));
    body
}

/// Builds the HTTP request for a chat (`models == false`) or for the model list.
/// The key must be visible ASCII, a chat needs a model ID, and the whole request
/// must fit in `MAX_REQUEST` bytes.
pub fn request(
    ep: &Endpoint,
    key: &str,
    model: &str,
    messages: &[Message],
    models: bool,
) -> (r: Result<Vec<u8>, &'static str>)
    ensures
        bytes_view(r) == request_spec(
            ep.authority@,
            ep.base@,
            key@,
            model@,
            message_views(messages@),
            models,
        ),
{
    if !key_valid(key.as_bytes()) {
        return Err("API key is missing or contains invalid characters.");
    }
    let model_chars = chars_of(model);
    let (lo, hi) = trim_span(model_chars.as_slice());
    if !models && (lo == hi || model.as_bytes().len() > 256) {
        return Err("Please enter a model ID.");
    }
    let body: Vec<char> = if models {
        Vec::new()
    } else {
        chat_body_exec(&model_chars.as_slice()[lo..hi], messages)
    };
    let body_text = string_from_chars(body.as_slice());
    let body_len = body_text.as_str().as_bytes().len();
    let method = if models {
        "GET"
    } else {
        "POST"
    };
    let suffix = if models {
        "/models"
    } else {
        "/chat/completions"
    };
    let mut t: Vec<char> = chars_of(method);
    push_str(&mut t, " ");
    push_str(&mut t, ep.base.as_str());
    push_str(&mut t, suffix);
    push_str(&mut t, " HTTP/1.1\r\nHost: ");
    push_str(&mut t, ep.authority.as_str());
    push_str(&mut t, "\r\nAuthorization: Bearer ");
    push_str(&mut t, key);
    push_str(
        &mut t,
        "\r\nContent-Type: application/json\r\nAccept: application/json\r\nAccept-Encoding: identity\r\nConnection: close\r\nContent-Length: ",
    );
    push_decimal(&mut t, body_len as u64);
    push_str(&mut t, "\r\n\r\n");
    push_chars(&mut t, body.as_slice());
    assert(t@ =~= request_text(
        ep.authority@,
        ep.base@,
        key@,
        model@,
        message_views(messages@),
        models,
    ));
    let text = string_from_chars(t.as_slice());
    let bytes = text.as_str().as_bytes();
    if bytes.len() > MAX_REQUEST {
        return Err("Chat is too long. Please start a new chat.");
    }
    Ok(vstd::slice::slice_to_vec(bytes))
}

// ---------------------------------------------------------------------------
// The answer shown for a reply
// ---------------------------------------------------------------------------

/// The message for an HTTP status outside 2xx. The body is never shown: a
/// provider's error body may echo the key or the prompt.
pub open spec fn status_message(status: u16) -> Seq<char> {
    if status == 401 || status == 403 {
        "Access denied: check your API key and permissions."@
    } else if status == 404 {
        "API path or model not found."@
    } else if status == 429 {
        "Provider limit reached. Please try again later."@
    } else {
        "API request failed (HTTP "@ + dec_chars(status as nat) + ")."@
    }
}

/// The `id` strings of the entries of a model list, in order; entries without
/// a string `id` are skipped.
pub open spec fn model_ids(list: Seq<JsonValue>) -> Seq<Seq<char>>
    decreases list.len(),
{
    if list.len() == 0 {
        Seq::empty()
    } else {
        let earlier = model_ids(list.drop_last());
        match string_of(member(Some(list.last()), "id"@)) {
            Some(id) => earlier.push(id),
            None => earlier,
        }
    }
}

/// At most the first 80 names.
pub open spec fn first_names(names: Seq<Seq<char>>) -> Seq<Seq<char>> {
    if names.len() <= 80 {
        names
    } else {
        names.take(80)
    }
}

/// The names, one per line.
pub open spec fn join_lines(names: Seq<Seq<char>>) -> Seq<char>
    decreases names.len(),
{
    if names.len() == 0 {
        Seq::empty()
    } else if names.len() == 1 {
        names[0]
    } else {
        join_lines(names.drop_last()) + seq!['\n'] + names.last()
    }
}

/// The reply text of a chat completion: `choices[0].message.content`.
pub open spec fn reply_content(v: JsonValue) -> Option<Seq<char>> {
    string_of(member(member(element(member(Some(v), "choices"@), 0), "message"@), "content"@))
}

/// What is shown for a complete reply with status `status` whose body reads as
/// the JSON `doc` (`None` when the body is not JSON): the model names for a
/// model listing, the assistant's text for a chat, or an error message.
pub open spec fn answer_spec(status: u16, doc: Option<JsonValue>, models: bool) -> Result<
    Seq<char>,
    Seq<char>,
> {
    if status < 200 || status >= 300 {
        Err(status_message(status))
    } else {
        match doc {
            None => Err("The API returned invalid JSON."@),
            Some(v) => if models {
                match array_of(member(Some(v), "data"@)) {
                    None => Err("No model list returned. Please enter a model ID manually."@),
                    Some(list) => {
                        let names = first_names(model_ids(list));
                        if names.len() == 0 {
                            Err("No models available. Please enter a model ID manually."@)
                        } else {
                            Ok("Connected. Available models:\n"@ + join_lines(names))
                        }
                    },
                }
            } else {
                match reply_content(v) {
                    Some(text) => if text.len() > 0 {
                        Ok(text)
                    } else {
                        Err("The model did not return a text response."@)
                    },
                    None => Err("The model did not return a text response."@),
                }
            },
        }
    }
}

pub open spec fn answer_view(r: Result<String, String>) -> Result<Seq<char>, Seq<char>> {
    match r {
        Ok(s) => Ok(s@),
        Err(s) => Err(s@),
    }
}

fn status_text(status: u16) -> (r: String)
    ensures
        r@ == status_message(status),
{
    if status == 401 || status == 403 {
        "Access denied: check your API key and permissions.".to_owned()
    } else if status == 404 {
        "API path or model not found.".to_owned()
    } else if status == 429 {
        "Provider limit reached. Please try again later.".to_owned()
    } else {
        let mut t = chars_of("API request failed (HTTP ");
        push_decimal(&mut t, status as u64);
        push_str(&mut t, ").");
        string_from_chars(t.as_slice())
    }
}

/// The model names of a model list, joined by newlines, and how many there are.
fn model_list_text(list: &Vec<JsonValue>) -> (r: (Vec<char>, usize))
    ensures
        r.0@ == join_lines(first_names(model_ids(list@))),
        r.1 == first_names(model_ids(list@)).len(),
{
    let mut out: Vec<char> = Vec::new();
    let mut count: usize = 0;
    let mut i: usize = 0;
    while i < list.len()
        invariant
            i <= list@.len(),
            count == first_names(model_ids(list@.subrange(0, i as int))).len(),
            count <= 80,
            out@ == join_lines(first_names(model_ids(list@.subrange(0, i as int)))),
        decreases list@.len() - i,
    {
        let ghost ids = model_ids(list@.subrange(0, i as int));
        let ghost next = list@.subrange(0, i + 1);
        assert(next.drop_last() =~= list@.subrange(0, i as int));
        assert(next.last() == list@[i as int]);
        let id = get_str(get_member(Some(&list[i]), "id"));
        match id {
            Some(name) => {
                let ghost ids2 = ids.push(name@);
                assert(model_ids(next) == ids2);
                if count < 80 {
                    assert(first_names(ids) == ids);
                    assert(first_names(ids2) == ids2);
                    if count > 0 {
                        out.push('\n');
                    }
                    let cs = chars_of(name.as_str());
                    push_chars(&mut out, cs.as_slice());
                    proof {
                        assert(ids2.drop_last() =~= ids);
                        if ids.len() == 0 {
                            assert(out@ =~= join_lines(ids2));
                        } else {
                            assert(out@ =~= join_lines(ids2));
                        }
                    }
                    count = count + 1;
                } else {
                    proof {
                        assert(ids2.take(80) =~= ids.take(80));
                        if ids.len() == 80 {
                            assert(ids.take(80) =~= ids);
                        }
                        assert(first_names(ids2) =~= first_names(ids));
                    }
                }
            },
            None => {
                assert(model_ids(next) == ids);
            },
        }
        i = i + 1;
    }
    assert(list@.subrange(0, list@.len() as int) =~= list@);
    (out, count)
}

/// The text shown for a complete reply `r`: its body is read as JSON, except
/// for an error status, which is answered with a fixed message that never
/// repeats the body.
pub fn answer(r: Response, models: bool) -> (res: Result<String, String>)
    ensures
        answer_view(res) == answer_spec(r.status, json_document(r.body@), models),
{
    if r.status < 200 || r.status >= 300 {
        proof {
            lemma_error_status_ignores_body(r.status, None, json_document(r.body@), models);
        }
        return answer_document(r, None, models);
    }
    let doc = read_json(r.body.as_slice());
    answer_document(r, doc, models)
}

/// The text shown for a complete reply `r` whose body reads as the JSON `doc`
/// (`None` when it is not JSON).
pub fn answer_document(r: Response, doc: Option<JsonValue>, models: bool) -> (res: Result<
    String,
    String,
>)
    ensures
        answer_view(res) == answer_spec(r.status, doc, models),
{
    let status = r.status;
    if status < 200 || status >= 300 {
        return Err(status_text(status));
    }
    let v = match &doc {
        None => {
            return Err("The API returned invalid JSON.".to_owned());
        },
        Some(v) => v,
    };
    if models {
        let list = match get_array(get_member(Some(v), "data")) {
            None => {
                return Err("No model list returned. Please enter a model ID manually.".to_owned());
            },
            Some(l) => l,
        };
        let (names, count) = model_list_text(list);
        if count == 0 {
            return Err("No models available. Please enter a model ID manually.".to_owned());
        }
        let mut t = chars_of("Connected. Available models:\n");
        push_chars(&mut t, names.as_slice());
        return Ok(string_from_chars(t.as_slice()));
    }
    let content = get_str(
        get_member(get_member(get_element(get_member(Some(v), "choices"), 0), "message"), "content"),
    );
    match content {
        Some(text) => if text.as_str().is_empty() {
            Err("The model did not return a text response.".to_owned())
        } else {
            Ok(text.clone())
        },
        None => Err("The model did not return a text response.".to_owned()),
    }
}

// ---------------------------------------------------------------------------
// Laws
// ---------------------------------------------------------------------------

/// Every prefix of a chunked body, decoded after `out`, is either still pending
/// or decodes exactly as the whole body.
pub proof fn lemma_chunks_prefix(data: Seq<u8>, out: Seq<u8>, k: int)
    requires
        0 <= k <= data.len(),
    ensures
        chunks_spec(data.take(k), out) == Ok::<Option<Seq<u8>>, &'static str>(None)
            || chunks_spec(data.take(k), out) == chunks_spec(data, out),
    decreases data.len(),
{
    let p = data.take(k);
    lemma_find_from_prefix(data, crlf(), 0, k);
    lemma_find_from_bounds(data, crlf(), 0);
    match find_from(data, crlf(), 0) {
        None => {},
        Some(q) => {
            if q + 2 <= k {
                let line = data.subrange(0, q);
                assert(p.subrange(0, q) =~= line);
                let rest = data.subrange(q + 2, data.len() as int);
                let rest_p = p.subrange(q + 2, k);
                assert(rest_p =~= rest.take(k - q - 2));
                if valid_utf8(line) {
                    match parse_hex(size_field(line)) {
                        Some(size) => {
                            if size == 0 {
                                lemma_find_from_prefix(rest, blank_line(), 0, k - q - 2);
                                if rest_p.len() >= 2 {
                                    assert(rest_p.subrange(0, 2) =~= rest.subrange(0, 2));
                                }
                            } else if rest_p.len() >= size + 2 {
                                let sz = size as int;
                                assert(rest_p.subrange(sz, sz + 2) =~= rest.subrange(sz, sz + 2));
                                assert(rest_p.subrange(0, sz) =~= rest.subrange(0, sz));
                                let tail = rest.subrange(sz + 2, rest.len() as int);
                                assert(rest_p.subrange(sz + 2, rest_p.len() as int) =~= tail.take(
                                    k - q - 4 - sz,
                                ));
                                lemma_chunks_prefix(tail, out + rest.subrange(0, sz), k - q - 4 - sz);
                            }
                        },
                        None => {},
                    }
                }
            }
        },
    }
}

/// Once a chunked body is decided (complete or malformed), more bytes never
/// change the decision, and a complete body is at most `MAX_RESPONSE` bytes.
pub proof fn lemma_chunked_decision_stable(d: Seq<u8>, e: Seq<u8>)
    requires
        chunks_spec(d, seq![]) != Ok::<Option<Seq<u8>>, &'static str>(None),
    ensures
        chunks_spec(d + e, seq![]) == chunks_spec(d, seq![]),
        match chunks_spec(d, seq![]) {
            Ok(Some(b)) => b.len() <= MAX_RESPONSE,
            _ => true,
        },
{
    lemma_chunks_prefix(d + e, seq![], d.len() as int);
    assert((d + e).take(d.len() as int) =~= d);
    lemma_chunks_bounded(d, seq![]);
}

/// The lowercase hexadecimal digit for `d < 16`, as a byte.
pub open spec fn hex_digit_byte(d: nat) -> u8 {
    if d < 10 {
        (48 + d) as u8
    } else {
        (87 + d) as u8
    }
}

/// `n` in lowercase hexadecimal without leading zeros, as `format!("{:x}", n)`
/// writes it.
pub open spec fn hex_bytes(n: nat) -> Seq<u8>
    decreases n,
{
    if n < 16 {
        seq![hex_digit_byte(n)]
    } else {
        hex_bytes(n / 16).push(hex_digit_byte(n % 16))
    }
}

/// The chunks `xs` in chunked transfer coding: each behind its size line and
/// followed by CR LF. The last chunk is not included.
pub open spec fn chunked(xs: Seq<Seq<u8>>) -> Seq<u8>
    decreases xs.len(),
{
    if xs.len() == 0 {
        Seq::empty()
    } else {
        hex_bytes(xs[0].len()) + crlf() + xs[0] + crlf() + chunked(xs.drop_first())
    }
}

/// The last chunk with an empty trailer: `0` CR LF CR LF.
pub open spec fn last_chunk() -> Seq<u8> {
    seq![48u8, 13u8, 10u8, 13u8, 10u8]
}

/// The chunks joined together.
pub open spec fn joined(xs: Seq<Seq<u8>>) -> Seq<u8>
    decreases xs.len(),
{
    if xs.len() == 0 {
        Seq::empty()
    } else {
        xs[0] + joined(xs.drop_first())
    }
}

proof fn lemma_hex_bytes(n: nat)
    ensures
        hex_bytes(n).len() >= 1,
        hex_value(hex_bytes(n)) == n,
        forall|k: int|
            0 <= k < hex_bytes(n).len() ==> is_hex_digit(#[trigger] hex_bytes(n)[k])
                && hex_bytes(n)[k] < 128 && hex_bytes(n)[k] != 13u8 && hex_bytes(n)[k] != 59u8
                && hex_bytes(n)[k] != 43u8,
    decreases n,
{
    if n >= 16 {
        lemma_hex_bytes(n / 16);
        let h = hex_bytes(n);
        assert(h.drop_last() =~= hex_bytes(n / 16));
        let d = (n % 16) as nat;
        assert(hex_digit_value(hex_digit_byte(d)) == d);
        assert(n == (n / 16) * 16 + d);
        assert(h.last() == hex_digit_byte(d));
        assert(hex_value(h) == hex_value(h.drop_last()) * 16 + hex_digit_value(h.last()));
        assert forall|k: int| 0 <= k < h.len() implies is_hex_digit(#[trigger] h[k]) && h[k] < 128
            && h[k] != 13u8 && h[k] != 59u8 && h[k] != 43u8 by {
            if k < h.len() - 1 {
                assert(h[k] == hex_bytes(n / 16)[k]);
            }
        }
    } else {
        let h = hex_bytes(n);
        assert(h.drop_last() =~= Seq::<u8>::empty());
        assert(hex_digit_value(hex_digit_byte(n)) == n);
        assert(hex_value(h) == hex_value(h.drop_last()) * 16 + hex_digit_value(h.last()));
        assert(hex_value(Seq::<u8>::empty()) == 0);
    }
}

/// What the size line of a chunk of `n` bytes reads as.
proof fn lemma_size_line(n: nat)
    requires
        n <= MAX_RESPONSE,
    ensures
        valid_utf8(hex_bytes(n)),
        parse_hex(size_field(hex_bytes(n))) == Some(n),
        forall|k: int| 0 <= k < hex_bytes(n).len() ==> hex_bytes(n)[k] != 13u8,
{
    let h = hex_bytes(n);
    lemma_hex_bytes(n);
    lemma_ascii_valid_utf8(h);
    assert forall|k: int| 0 <= k < h.len() implies !#[trigger] starts_at(h, seq![59u8], k) by {
        if starts_at(h, seq![59u8], k) {
            assert(h.subrange(k, k + 1)[0] == h[k]);
        }
    }
    lemma_find_from_skip(h, seq![59u8], 0, h.len() as int);
    assert(size_field(h) == h);
    assert(all_hex_digits(h));
}

/// The position of the CR LF after a size line, and what precedes it.
proof fn lemma_size_line_end(h: Seq<u8>, data: Seq<u8>)
    requires
        forall|k: int| 0 <= k < h.len() ==> h[k] != 13u8,
        data.len() >= h.len(),
        data.subrange(0, h.len() as int) == h,
    ensures
        data.len() >= h.len() + 2 && data.subrange(h.len() as int, h.len() as int + 2) == crlf()
            ==> find_from(data, crlf(), 0) == Some(h.len() as int),
        data.len() < h.len() + 2 ==> find_from(data, crlf(), 0) is None,
{
    assert forall|k: int| 0 <= k < h.len() implies !#[trigger] starts_at(data, crlf(), k) by {
        if starts_at(data, crlf(), k) {
            assert(data.subrange(k, k + 2)[0] == data[k]);
            assert(data[k] == data.subrange(0, h.len() as int)[k]);
        }
    }
    lemma_find_from_skip(data, crlf(), 0, h.len() as int);
    if data.len() < h.len() + 2 {
        assert(find_from(data, crlf(), h.len() as int) is None);
    }
}

/// Chunks encoded in chunked transfer coding and ended by the last chunk decode
/// back to the chunks joined together (after what `out` already holds), when
/// they fit in `MAX_RESPONSE` bytes.
pub proof fn lemma_chunked_round_trip(xs: Seq<Seq<u8>>, out: Seq<u8>)
    requires
        forall|i: int| 0 <= i < xs.len() ==> #[trigger] xs[i].len() > 0,
        out.len() + joined(xs).len() <= MAX_RESPONSE,
    ensures
        chunks_spec(chunked(xs) + last_chunk(), out) == Ok::<Option<Seq<u8>>, &'static str>(
            Some(out + joined(xs)),
        ),
    decreases xs.len(),
{
    let data = chunked(xs) + last_chunk();
    if xs.len() == 0 {
        assert(data =~= last_chunk());
        lemma_size_line(0);
        assert(hex_bytes(0) =~= seq![48u8]);
        assert(data.subrange(0, 1) =~= hex_bytes(0));
        assert(data.subrange(1, 3) =~= crlf());
        lemma_size_line_end(hex_bytes(0), data);
        assert(find_from(data, crlf(), 0) == Some(1int));
        assert(data.subrange(3, 5) =~= crlf());
        assert(data.subrange(3, 5).subrange(0, 2) =~= crlf());
        assert(out + joined(xs) =~= out);
    } else {
        let x = xs[0];
        let rest_xs = xs.drop_first();
        let h = hex_bytes(x.len());
        let tail = chunked(rest_xs) + last_chunk();
        assert(joined(xs) == x + joined(rest_xs));
        lemma_size_line(x.len());
        assert(data =~= h + crlf() + (x + crlf() + tail));
        assert(data.subrange(0, h.len() as int) =~= h);
        assert(data.subrange(h.len() as int, h.len() as int + 2) =~= crlf());
        lemma_size_line_end(h, data);
        let rest = data.subrange(h.len() as int + 2, data.len() as int);
        assert(rest =~= x + crlf() + tail);
        assert(rest.subrange(x.len() as int, x.len() as int + 2) =~= crlf());
        assert(rest.subrange(x.len() as int + 2, rest.len() as int) =~= tail);
        assert(rest.subrange(0, x.len() as int) =~= x);
        assert forall|i: int| 0 <= i < rest_xs.len() implies #[trigger] rest_xs[i].len() > 0 by {
            assert(rest_xs[i] == xs[i + 1]);
        }
        assert(find_from(data, crlf(), 0) == Some(h.len() as int));
        assert(x.len() > 0);
        assert(x.len() <= saturating_sub(MAX_RESPONSE as nat, out.len()));
        lemma_chunked_round_trip(rest_xs, out + x);
        assert(out + x + joined(rest_xs) =~= out + joined(xs));
    }
}

/// Every strict prefix of chunks in chunked transfer coding, ended by the last
/// chunk, is still pending: an incomplete chunked body is never an error and
/// never a short result.
pub proof fn lemma_chunked_prefix_pending(xs: Seq<Seq<u8>>, out: Seq<u8>, k: int)
    requires
        forall|i: int| 0 <= i < xs.len() ==> #[trigger] xs[i].len() > 0,
        out.len() + joined(xs).len() <= MAX_RESPONSE,
        0 <= k < (chunked(xs) + last_chunk()).len(),
    ensures
        chunks_spec((chunked(xs) + last_chunk()).take(k), out) == Ok::<
            Option<Seq<u8>>,
            &'static str,
        >(None),
    decreases xs.len(),
{
    let data = chunked(xs) + last_chunk();
    let p = data.take(k);
    if xs.len() == 0 {
        assert(data =~= last_chunk());
        lemma_size_line(0);
        assert(hex_bytes(0) =~= seq![48u8]);
        if k == 0 {
            assert(find_from(p, crlf(), 0) is None);
        } else {
            assert(p.subrange(0, 1) =~= hex_bytes(0));
            lemma_size_line_end(hex_bytes(0), p);
            if k >= 3 {
                assert(p.subrange(1, 3) =~= crlf());
                assert(find_from(p, crlf(), 0) == Some(1int));
                assert(p.subrange(0, 1) =~= seq![48u8]);
                let rest = p.subrange(3, k);
                assert(rest.len() < 2);
                assert(find_from(rest, blank_line(), 0) is None);
            }
        }
    } else {
        let x = xs[0];
        let rest_xs = xs.drop_first();
        let h = hex_bytes(x.len());
        let tail = chunked(rest_xs) + last_chunk();
        assert(joined(xs) == x + joined(rest_xs));
        lemma_size_line(x.len());
        assert(data =~= h + crlf() + (x + crlf() + tail));
        if k < h.len() {
            assert forall|j: int| 0 <= j < p.len() implies p[j] != 13u8 by {
                assert(p[j] == h[j]);
            }
            assert(p.subrange(0, p.len() as int) =~= p);
            lemma_size_line_end(p, p);
        } else {
            assert(p.subrange(0, h.len() as int) =~= h);
            lemma_size_line_end(h, p);
            if k >= h.len() + 2 {
                assert(p.subrange(h.len() as int, h.len() as int + 2) =~= crlf());
                assert(find_from(p, crlf(), 0) == Some(h.len() as int));
                let rest = p.subrange(h.len() as int + 2, p.len() as int);
                let m = k - h.len() - 2;
                assert(rest =~= (x + crlf() + tail).take(m));
                assert(x.len() > 0);
                assert(x.len() <= saturating_sub(MAX_RESPONSE as nat, out.len()));
                if rest.len() >= x.len() + 2 {
                    assert(rest.subrange(x.len() as int, x.len() as int + 2) =~= crlf());
                    assert(rest.subrange(0, x.len() as int) =~= x);
                    let m2 = m - x.len() - 2;
                    assert(rest.subrange(x.len() as int + 2, rest.len() as int) =~= tail.take(m2));
                    assert forall|i: int| 0 <= i < rest_xs.len() implies #[trigger] rest_xs[i].len()
                        > 0 by {
                        assert(rest_xs[i] == xs[i + 1]);
                    }
                    lemma_chunked_prefix_pending(rest_xs, out + x, m2);
                }
            }
        }
    }
}

/// The reply's body is delimited by HTTP framing (`Content-Length` or chunked
/// coding) rather than by the end of a JSON value.
pub open spec fn http_framed(raw: Seq<u8>) -> bool {
    match find_from(raw, blank_line(), 0) {
        Some(at) => valid_utf8(raw.subrange(0, at)) && match head_spec(
            decode_utf8(raw.subrange(0, at)),
        ) {
            Ok((_, length, chunked)) => length is Some || chunked,
            Err(_) => false,
        },
        None => false,
    }
}

/// A reply may arrive in pieces: every prefix of an HTTP-framed reply (within
/// the size bound) reads either as incomplete or as exactly what the whole
/// reply reads as. A reply is never taken as complete early, and it never
/// reads differently because it arrived fragmented.
pub proof fn lemma_framed_reply_prefixes(raw: Seq<u8>, k: int)
    requires
        http_framed(raw),
        raw.len() <= MAX_RESPONSE,
        0 <= k <= raw.len(),
    ensures
        response_spec(raw.take(k)) == Ok::<Option<(u16, Seq<u8>)>, &'static str>(None)
            || response_spec(raw.take(k)) == response_spec(raw),
{
    let p = raw.take(k);
    lemma_find_from_prefix(raw, blank_line(), 0, k);
    lemma_find_from_bounds(raw, blank_line(), 0);
    let at = find_from(raw, blank_line(), 0)->0;
    if at + 4 <= k {
        assert(p.subrange(0, at) =~= raw.subrange(0, at));
        let payload = raw.subrange(at + 4, raw.len() as int);
        let payload_p = p.subrange(at + 4, k);
        assert(payload_p =~= payload.take(k - at - 4));
        match head_spec(decode_utf8(raw.subrange(0, at))) {
            Ok((status, length, chunked)) => {
                if chunked && length is None {
                    lemma_chunks_prefix(payload, seq![], k - at - 4);
                } else if !chunked {
                    let n = length->0 as int;
                    if payload_p.len() >= n {
                        assert(payload_p.subrange(0, n) =~= payload.subrange(0, n));
                    }
                }
            },
            Err(_) => {},
        }
    }
}

/// Decoding a chunked body after at most `MAX_RESPONSE` bytes never completes
/// with more than `MAX_RESPONSE` bytes.
pub proof fn lemma_chunks_bounded(data: Seq<u8>, out: Seq<u8>)
    requires
        out.len() <= MAX_RESPONSE,
    ensures
        match chunks_spec(data, out) {
            Ok(Some(b)) => b.len() <= MAX_RESPONSE,
            _ => true,
        },
    decreases data.len(),
{
    lemma_find_from_bounds(data, crlf(), 0);
    match find_from(data, crlf(), 0) {
        None => {},
        Some(p) => {
            let line = data.subrange(0, p);
            let rest = data.subrange(p + 2, data.len() as int);
            if valid_utf8(line) {
                match parse_hex(size_field(line)) {
                    Some(size) => {
                        if size > 0 && size <= saturating_sub(MAX_RESPONSE as nat, out.len())
                            && rest.len() >= size + 2 {
                            let sz = size as int;
                            lemma_chunks_bounded(
                                rest.subrange(sz + 2, rest.len() as int),
                                out + rest.subrange(0, sz),
                            );
                        }
                    },
                    None => {},
                }
            }
        },
    }
}

proof fn lemma_fields_length_bounded(h: Seq<char>, i: int, length: Option<nat>, chunked: bool)
    requires
        match length {
            Some(n) => n <= MAX_RESPONSE,
            None => true,
        },
    ensures
        match fields_spec(h, i, length, chunked) {
            Ok((Some(n), _)) => n <= MAX_RESPONSE,
            _ => true,
        },
    decreases h.len() - i,
{
    let e = find_line_break(h, i);
    if i >= 0 {
        lemma_find_line_break_bounds(h, i);
    }
    let end = match e {
        Some(x) => x,
        None => h.len() as int,
    };
    match field_spec(h.subrange(i, end), length, chunked) {
        Ok((length2, chunked2)) => {
            if i >= 0 {
                if let Some(x) = e {
                    lemma_fields_length_bounded(h, x + 2, length2, chunked2);
                }
            }
        },
        Err(_) => {},
    }
}

/// A complete reply's body never exceeds `MAX_RESPONSE` bytes, however it is
/// framed.
pub proof fn lemma_reply_body_bounded(raw: Seq<u8>)
    ensures
        match response_spec(raw) {
            Ok(Some((_, body))) => body.len() <= MAX_RESPONSE,
            _ => true,
        },
{
    if raw.len() <= MAX_RESPONSE {
        lemma_find_from_bounds(raw, blank_line(), 0);
        match find_from(raw, blank_line(), 0) {
            Some(at) => {
                let h = decode_utf8(raw.subrange(0, at));
                let payload = raw.subrange(at + 4, raw.len() as int);
                lemma_chunks_bounded(payload, seq![]);
                let e = find_line_break(h, 0);
                lemma_find_line_break_bounds(h, 0);
                if let Some(x) = e {
                    lemma_fields_length_bounded(h, x + 2, None, false);
                }
            },
            None => {},
        }
    }
}

/// A reply with a status outside 2xx is answered with the fixed message for
/// that status, whatever its body holds: a provider's error body, which may
/// echo the key or the prompt, is never shown.
pub proof fn lemma_error_status_ignores_body(
    status: u16,
    doc1: Option<JsonValue>,
    doc2: Option<JsonValue>,
    models: bool,
)
    requires
        status < 200 || status >= 300,
    ensures
        answer_spec(status, doc1, models) == answer_spec(status, doc2, models),
        answer_spec(status, doc1, models) == Err::<Seq<char>, Seq<char>>(status_message(status)),
{
}

/// An accepted endpoint holds nothing that could end or split the request line
/// or the `Host` header: host, authority and base are visible ASCII without
/// `@`, `#`, `?` or `\`, and the port is not 0.
pub proof fn lemma_endpoint_fields_clean(raw: Seq<char>)
    requires
        endpoint_spec(raw) is Ok,
    ensures
        all_url_chars(endpoint_spec(raw)->Ok_0.0),
        all_url_chars(endpoint_spec(raw)->Ok_0.1),
        endpoint_spec(raw)->Ok_0.2 != 0,
        all_url_chars(endpoint_spec(raw)->Ok_0.3),
{
    let t = trim(raw);
    let rest = t.subrange(8, t.len() as int);
    let slash = find_char(rest, '/', 0);
    lemma_find_char_bounds(rest, '/', 0);
    let authority = match slash {
        Some(j) => rest.subrange(0, j),
        None => rest,
    };
    let path = match slash {
        Some(j) => rest.subrange(j + 1, rest.len() as int),
        None => Seq::empty(),
    };
    lemma_find_char_bounds(authority, ':', 0);
    assert(all_url_chars(authority)) by {
        assert forall|i: int| 0 <= i < authority.len() implies url_char_ok(authority[i]) by {
            assert(authority[i] == rest[i]);
        }
    }
    assert(all_url_chars(path)) by {
        assert forall|i: int| 0 <= i < path.len() implies url_char_ok(path[i]) by {
            if let Some(j) = slash {
                assert(path[i] == rest[j + 1 + i]);
            }
        }
    }
    let colon = find_char(authority, ':', 0);
    let host = match colon {
        Some(j) => authority.subrange(0, j),
        None => authority,
    };
    assert(all_url_chars(host)) by {
        assert forall|i: int| 0 <= i < host.len() implies url_char_ok(host[i]) by {
            assert(host[i] == authority[i]);
        }
    }
    let kept = path.subrange(0, slash_end(path, path.len() as int));
    lemma_slash_end_bounds(path, path.len() as int);
    let b = base_path(path);
    assert(all_url_chars(b)) by {
        assert forall|i: int| 0 <= i < b.len() implies url_char_ok(b[i]) by {
            if i > 0 {
                assert(b[i] == path[i - 1]);
            }
        }
    }
}

/// `s` holds no CR and no LF.
pub open spec fn no_line_break(s: Seq<char>) -> bool {
    forall|i: int| 0 <= i < s.len() ==> s[i] != '\r' && s[i] != '\n'
}

proof fn lemma_encoded_ascii(s: Seq<char>, i: int)
    requires
        0 <= i < s.len(),
        (s[i] as u32) < 128,
    ensures
        exists|j: int| 0 <= j < encode_utf8(s).len() && encode_utf8(s)[j] == (s[i] as u32) as u8,
    decreases s.len(),
{
    let first = encode_scalar(s[0] as u32);
    assert(encode_utf8(s) == first + encode_utf8(s.drop_first()));
    if i == 0 {
        let v = s[0] as u32;
        assert(has_width_1_encoding(v));
        assert((v & 0x7F) == v) by (bit_vector)
            requires
                v < 128,
        ;
        assert(encode_utf8(s)[0] == v as u8);
    } else {
        lemma_encoded_ascii(s.drop_first(), i - 1);
        let j = choose|j: int|
            0 <= j < encode_utf8(s.drop_first()).len() && encode_utf8(s.drop_first())[j] == ((
            s.drop_first()[i - 1]) as u32) as u8;
        assert(encode_utf8(s)[first.len() + j] == encode_utf8(s.drop_first())[j]);
    }
}

/// Nothing a user enters can add a header line to a request: with an endpoint
/// that `parse` accepted, the fields the header block takes from input (the
/// base path, the authority and the API key) hold no CR or LF, so the only line
/// breaks before the body are the request's own.
pub proof fn lemma_request_header_fields(
    raw: Seq<char>,
    key: Seq<char>,
    model: Seq<char>,
    ms: Seq<(Seq<char>, Seq<char>)>,
    models: bool,
)
    requires
        endpoint_spec(raw) is Ok,
        request_spec(
            endpoint_spec(raw)->Ok_0.1,
            endpoint_spec(raw)->Ok_0.3,
            key,
            model,
            ms,
            models,
        ) is Ok,
    ensures
        no_line_break(endpoint_spec(raw)->Ok_0.1),
        no_line_break(endpoint_spec(raw)->Ok_0.3),
        no_line_break(key),
{
    lemma_endpoint_fields_clean(raw);
    assert forall|i: int| 0 <= i < key.len() implies key[i] != '\r' && key[i] != '\n' by {
        if key[i] == '\r' || key[i] == '\n' {
            lemma_encoded_ascii(key, i);
        }
    }
}

/// A request that is built is never longer than `MAX_REQUEST` bytes, is the
/// UTF-8 encoding of the request text, and carries a key of visible ASCII.
pub proof fn lemma_request_bounded(
    authority: Seq<char>,
    base: Seq<char>,
    key: Seq<char>,
    model: Seq<char>,
    ms: Seq<(Seq<char>, Seq<char>)>,
    models: bool,
)
    requires
        request_spec(authority, base, key, model, ms, models) is Ok,
    ensures
        request_spec(authority, base, key, model, ms, models)->Ok_0.len() <= MAX_REQUEST,
        request_spec(authority, base, key, model, ms, models)->Ok_0 == encode_utf8(
            request_text(authority, base, key, model, ms, models),
        ),
        key_ok(encode_utf8(key)),
{
}

proof fn lemma_slash_end_last(p: Seq<char>, j: int)
    requires
        0 <= j <= p.len(),
    ensures
        slash_end(p, j) == 0 || p[slash_end(p, j) - 1] != '/',
    decreases j,
{
    if j > 0 && p[j - 1] == '/' {
        lemma_slash_end_last(p, j - 1);
    }
}

/// An endpoint is its own normal form: the URL put back together from its
/// authority and base path parses to the same endpoint.
#[verifier::rlimit(40)]
#[verifier::spinoff_prover]
pub proof fn lemma_endpoint_normal_form(raw: Seq<char>)
    requires
        endpoint_spec(raw) is Ok,
    ensures
        endpoint_spec("https://"@ + endpoint_spec(raw)->Ok_0.1 + endpoint_spec(raw)->Ok_0.3)
            == endpoint_spec(raw),
{
    reveal_strlit("https://");
    lemma_endpoint_fields_clean(raw);
    let a = endpoint_spec(raw)->Ok_0.1;
    let b = endpoint_spec(raw)->Ok_0.3;
    let t0 = trim(raw);
    let rest0 = t0.subrange(8, t0.len() as int);
    let slash0 = find_char(rest0, '/', 0);
    lemma_find_char_bounds(rest0, '/', 0);
    lemma_find_char_first(rest0, '/', 0);
    let path0 = match slash0 {
        Some(j) => rest0.subrange(j + 1, rest0.len() as int),
        None => Seq::empty(),
    };
    lemma_slash_end_bounds(path0, path0.len() as int);
    lemma_slash_end_last(path0, path0.len() as int);
    let kept = path0.subrange(0, slash_end(path0, path0.len() as int));
    assert forall|k: int| 0 <= k < a.len() implies a[k] != '/' by {
        assert(a[k] == rest0[k]);
    }
    let ab = a + b;
    let s = "https://"@ + ab;
    assert("https://"@ + a + b =~= s);
    assert forall|k: int| 8 <= k < s.len() implies !is_space(#[trigger] s[k]) by {
        if k < 8 + a.len() {
            assert(s[k] == a[k - 8]);
            assert(url_char_ok(a[k - 8]));
        } else {
            assert(s[k] == b[k - 8 - a.len()]);
            assert(url_char_ok(b[k - 8 - a.len()]));
        }
    }
    assert(s[0] == 'h');
    assert(a.len() > 0);
    assert(!is_space(s[s.len() - 1]));
    assert(trim(s) =~= s);
    assert(s.subrange(0, 8) =~= "https://"@);
    assert(s.subrange(8, s.len() as int) =~= ab);
    assert(all_url_chars(ab)) by {
        assert forall|k: int| 0 <= k < ab.len() implies url_char_ok(ab[k]) by {
            if k < a.len() {
                assert(ab[k] == a[k]);
            } else {
                assert(ab[k] == b[k - a.len()]);
            }
        }
    }
    lemma_find_char_skip(ab, '/', 0, a.len() as int);
    if b.len() > 0 {
        assert(kept.len() > 0);
        assert(b =~= seq!['/'] + kept);
        assert(ab[a.len() as int] == '/');
        assert(ab.subrange(0, a.len() as int) =~= a);
        assert(ab.subrange(a.len() as int + 1, ab.len() as int) =~= kept);
        assert(slash_end(kept, kept.len() as int) == kept.len());
        assert(kept.subrange(0, kept.len() as int) =~= kept);
        assert(base_path(kept) =~= b);
    } else {
        assert(ab =~= a);
        assert(base_path(Seq::<char>::empty()) =~= b);
    }
}

proof fn lemma_no_line_break_concat(a: Seq<char>, b: Seq<char>)
    requires
        no_line_break(a),
        no_line_break(b),
    ensures
        no_line_break(a + b),
{
    assert forall|i: int| 0 <= i < (a + b).len() implies (a + b)[i] != '\r' && (a + b)[i] != '\n' by {
        if i < a.len() {
            assert((a + b)[i] == a[i]);
        } else {
            assert((a + b)[i] == b[i - a.len()]);
        }
    }
}

proof fn lemma_key_no_line_break(key: Seq<char>)
    requires
        key_ok(encode_utf8(key)),
    ensures
        no_line_break(key),
{
    assert forall|i: int| 0 <= i < key.len() implies key[i] != '\r' && key[i] != '\n' by {
        if key[i] == '\r' || key[i] == '\n' {
            lemma_encoded_ascii(key, i);
        }
    }
}

/// Every request that is built, chat or model listing, carries the key: after
/// the request line and the `Host` line comes the line
/// `Authorization: Bearer <key>`. The request line, the authority and the key
/// hold no line break, so this line lies in the header block, before any
/// blank line.
pub proof fn lemma_request_carries_key(
    authority: Seq<char>,
    base: Seq<char>,
    key: Seq<char>,
    model: Seq<char>,
    ms: Seq<(Seq<char>, Seq<char>)>,
    models: bool,
)
    requires
        no_line_break(authority),
        no_line_break(base),
        request_spec(authority, base, key, model, ms, models) is Ok,
    ensures
        no_line_break(key),
        exists|line: Seq<char>, rest: Seq<char>|
            line.len() > 0 && no_line_break(line) && #[trigger] request_spec(
                authority,
                base,
                key,
                model,
                ms,
                models,
            )->Ok_0 == encode_utf8(
                line + "\r\nHost: "@ + authority + "\r\nAuthorization: Bearer "@ + key + "\r\n"@
                    + rest,
            ),
{
    lemma_key_no_line_break(key);
    reveal_strlit("GET");
    reveal_strlit("POST");
    reveal_strlit(" ");
    reveal_strlit("/models");
    reveal_strlit("/chat/completions");
    reveal_strlit(" HTTP/1.1");
    reveal_strlit("\r\n");
    reveal_strlit(
        "\r\nContent-Type: application/json\r\nAccept: application/json\r\nAccept-Encoding: identity\r\nConnection: close\r\nContent-Length: ",
    );
    let method = if models {
        "GET"@
    } else {
        "POST"@
    };
    let suffix = if models {
        "/models"@
    } else {
        "/chat/completions"@
    };
    assert(no_line_break(method));
    assert(no_line_break(suffix));
    assert(no_line_break(" "@));
    assert(no_line_break(" HTTP/1.1"@));
    lemma_no_line_break_concat(method, " "@);
    lemma_no_line_break_concat(method + " "@, base);
    lemma_no_line_break_concat(method + " "@ + base, suffix);
    lemma_no_line_break_concat(method + " "@ + base + suffix, " HTTP/1.1"@);
    let line = method + " "@ + base + suffix + " HTTP/1.1"@;
    let big = "\r\nContent-Type: application/json\r\nAccept: application/json\r\nAccept-Encoding: identity\r\nConnection: close\r\nContent-Length: "@;
    let body = if models {
        Seq::empty()
    } else {
        chat_body(trim(model), ms)
    };
    let rest = big.subrange(2, big.len() as int) + dec_chars(encode_utf8(body).len()) + "\r\n\r\n"@
        + body;
    reveal_strlit(" HTTP/1.1\r\nHost: ");
    reveal_strlit("\r\nHost: ");
    assert(" HTTP/1.1\r\nHost: "@ =~= " HTTP/1.1"@ + "\r\nHost: "@);
    assert(big =~= "\r\n"@ + big.subrange(2, big.len() as int));
    assert(request_text(authority, base, key, model, ms, models) =~= line + "\r\nHost: "@
        + authority + "\r\nAuthorization: Bearer "@ + key + "\r\n"@ + rest);
    assert(line.len() > 0);
}

/// Some dot among the 64 characters of `h` from position `i` on.
pub open spec fn dot_within_64(h: Seq<char>, i: int) -> bool {
    exists|k: int| i <= k < i + 64 && h[k] == '.'
}

/// A DNS name: 1 to 253 ASCII letters, digits, hyphens and dots, where no dot
/// comes first, last or right after another dot, no hyphen starts or ends a
/// dot-separated label, and no label is longer than 63 characters (every 64
/// characters in a row hold a dot).
pub open spec fn dns_name(h: Seq<char>) -> bool {
    &&& 0 < h.len() <= 253
    &&& forall|i: int| 0 <= i < h.len() ==> is_alnum(#[trigger] h[i]) || h[i] == '-' || h[i] == '.'
    &&& h[0] != '.' && h[0] != '-' && h.last() != '.' && h.last() != '-'
    &&& forall|i: int|
        0 <= i < h.len() - 1 && #[trigger] h[i] == '.' ==> h[i + 1] != '.' && h[i + 1] != '-'
    &&& forall|i: int| 0 < i < h.len() && #[trigger] h[i] == '.' ==> h[i - 1] != '-'
    &&& forall|i: int| 0 <= i && i + 64 <= h.len() ==> #[trigger] dot_within_64(h, i)
}

proof fn lemma_dns_labels(h: Seq<char>, i: int)
    requires
        dns_name(h),
        0 <= i < h.len(),
        i == 0 || h[i - 1] == '.',
    ensures
        labels_ok(h, i),
    decreases h.len() - i,
{
    lemma_find_char_bounds(h, '.', i);
    lemma_find_char_first(h, '.', i);
    if i > 0 {
        assert(h[i - 1] == '.');
        assert(h[i] != '.' && h[i] != '-');
    }
    let end = match find_char(h, '.', i) {
        Some(j) => j,
        None => h.len() as int,
    };
    let l = h.subrange(i, end);
    assert(end > i);
    if end - i > 63 {
        assert(dot_within_64(h, i));
        let k = choose|k: int| i <= k < i + 64 && h[k] == '.';
        assert(false);
    }
    assert(l[0] == h[i]);
    assert(l.last() == h[end - 1]);
    if end < h.len() {
        assert(h[end] == '.');
        assert(h[end - 1] != '-');
    }
    assert(label_chars(l)) by {
        assert forall|k: int| 0 <= k < l.len() implies is_alnum(l[k]) || l[k] == '-' by {
            assert(l[k] == h[i + k]);
            assert(h[i + k] != '.');
        }
    }
    assert(label_ok(l));
    if let Some(j) = find_char(h, '.', i) {
        assert(j != h.len() - 1);
        lemma_dns_labels(h, j + 1);
    }
}

/// Every DNS name is accepted as an endpoint: `https://` and the name parse to
/// that host, with the name as the authority, port 443 and no base path.
pub proof fn lemma_dns_names_accepted(h: Seq<char>)
    requires
        dns_name(h),
    ensures
        endpoint_spec("https://"@ + h) == Ok::<(Seq<char>, Seq<char>, u16, Seq<char>), &'static str>(
            (h, h, 443u16, Seq::empty()),
        ),
{
    reveal_strlit("https://");
    let s = "https://"@ + h;
    assert forall|k: int| 0 <= k < h.len() implies url_char_ok(h[k]) && !is_space(h[k]) && h[k]
        != '/' && h[k] != ':' by {
        assert(is_alnum(h[k]) || h[k] == '-' || h[k] == '.');
    }
    assert(s[0] == 'h');
    assert(s[s.len() - 1] == h[h.len() - 1]);
    assert(!is_space(s[s.len() - 1]));
    assert(trim(s) =~= s);
    assert(s.subrange(0, 8) =~= "https://"@);
    assert(s.subrange(8, s.len() as int) =~= h);
    lemma_find_char_skip(h, '/', 0, h.len() as int);
    lemma_find_char_skip(h, ':', 0, h.len() as int);
    lemma_dns_labels(h, 0);
    assert(base_path(Seq::<char>::empty()) =~= Seq::<char>::empty());
}

/// The header lines after the status line, each behind CR LF.
pub open spec fn header_tail(lines: Seq<Seq<char>>) -> Seq<char>
    decreases lines.len(),
{
    if lines.len() == 0 {
        Seq::empty()
    } else {
        "\r\n"@ + lines[0] + header_tail(lines.drop_first())
    }
}

/// A header line `name: value` without line breaks whose name is none of the
/// framing headers (`Content-Length`, `Transfer-Encoding`, `Content-Encoding`,
/// in any case).
pub open spec fn ordinary_field(l: Seq<char>) -> bool {
    &&& no_line_break(l)
    &&& find_char(l, ':', 0) matches Some(c) && {
        let name = l.subrange(0, c);
        &&& !eq_ignore_case(name, "content-length"@)
        &&& !eq_ignore_case(name, "transfer-encoding"@)
        &&& !eq_ignore_case(name, "content-encoding"@)
    }
}

/// The header line `Content-Length: n`.
pub open spec fn length_field(n: nat) -> Seq<char> {
    "Content-Length: "@ + dec_chars(n)
}

spec fn fold_fields(lines: Seq<Seq<char>>, length: Option<nat>, chunked: bool) -> Result<
    (Option<nat>, bool),
    &'static str,
>
    decreases lines.len(),
{
    if lines.len() == 0 {
        Ok((length, chunked))
    } else {
        match field_spec(lines[0], length, chunked) {
            Err(m) => Err(m),
            Ok((l2, c2)) => fold_fields(lines.drop_first(), l2, c2),
        }
    }
}

proof fn lemma_fields_tail(
    h: Seq<char>,
    p: int,
    lines: Seq<Seq<char>>,
    length: Option<nat>,
    chunked: bool,
)
    requires
        0 <= p <= h.len(),
        lines.len() >= 1,
        h.subrange(p, h.len() as int) == header_tail(lines),
        forall|i: int| 0 <= i < lines.len() ==> no_line_break(#[trigger] lines[i]),
    ensures
        fields_spec(h, p + 2, length, chunked) == fold_fields(lines, length, chunked),
    decreases lines.len(),
{
    reveal_strlit("\r\n");
    let l0 = lines[0];
    let rest = lines.drop_first();
    let t = header_tail(lines);
    let i = p + 2;
    let q = i + l0.len();
    assert(no_line_break(l0));
    assert(h.len() == p + t.len());
    assert forall|k: int| i <= k < q && k < h.len() implies h[k] != '\r' by {
        assert(h[k] == h.subrange(p, h.len() as int)[k - p]);
        assert(t[k - p] == l0[k - p - 2]);
    }
    lemma_find_line_break_skip(h, i, q);
    assert(h.subrange(i, q) =~= l0) by {
        assert forall|k: int| 0 <= k < l0.len() implies h.subrange(i, q)[k] == l0[k] by {
            assert(h[i + k] == h.subrange(p, h.len() as int)[k + 2]);
        }
    }
    if rest.len() > 0 {
        let t2 = header_tail(rest);
        assert(h[q] == h.subrange(p, h.len() as int)[q - p]);
        assert(h[q + 1] == h.subrange(p, h.len() as int)[q + 1 - p]);
        assert(t[q - p] == t2[0]);
        assert(t[q + 1 - p] == t2[1]);
        assert(find_line_break(h, q) == Some(q));
        assert(t == "\r\n"@ + l0 + t2);
        assert forall|k: int| 0 <= k < t2.len() implies h.subrange(q, h.len() as int)[k] == t2[k] by {
            assert(h[q + k] == h.subrange(p, h.len() as int)[q + k - p]);
            assert(t[q + k - p] == t2[k]);
        }
        assert(h.subrange(q, h.len() as int) =~= t2);
        assert forall|j: int| 0 <= j < rest.len() implies no_line_break(#[trigger] rest[j]) by {
            assert(rest[j] == lines[j + 1]);
        }
        assert(find_line_break(h, i) == Some(q));
        match field_spec(l0, length, chunked) {
            Ok((l2, c2)) => {
                lemma_fields_tail(h, q, rest, l2, c2);
                assert(fields_spec(h, i, length, chunked) == fields_spec(h, q + 2, l2, c2));
                assert(fold_fields(lines, length, chunked) == fold_fields(rest, l2, c2));
            },
            Err(m) => {
                assert(fields_spec(h, i, length, chunked) == Err::<(Option<nat>, bool), &'static str>(m));
            },
        }
    } else {
        assert(header_tail(rest) =~= Seq::<char>::empty());
        assert(t =~= "\r\n"@ + l0);
        assert(q == h.len());
        assert(find_line_break(h, q) is None);
        assert(find_line_break(h, i) is None);
        assert(h.len() == q);
        assert(rest =~= Seq::<Seq<char>>::empty());
        match field_spec(l0, length, chunked) {
            Ok((l2, c2)) => {
                assert(fold_fields(rest, l2, c2) == Ok::<(Option<nat>, bool), &'static str>((l2, c2)));
            },
            Err(m) => {},
        }
    }
}

proof fn lemma_length_field(n: nat)
    requires
        n <= MAX_RESPONSE,
    ensures
        field_spec(length_field(n), None, false) == Ok::<(Option<nat>, bool), &'static str>(
            (Some(n), false),
        ),
{
    reveal_strlit("Content-Length: ");
    reveal_strlit("content-length");
    reveal_strlit("Content-Length");
    reveal_strlit("transfer-encoding");
    reveal_strlit("content-encoding");
    let l = length_field(n);
    let d = dec_chars(n);
    lemma_dec_chars(n);
    assert forall|k: int| 0 <= k < 16 implies l[k] == "Content-Length: "@[k] by {}
    reveal_with_fuel(find_char, 16);
    assert(find_char(l, ':', 0) == Some(14int));
    let name = l.subrange(0, 14);
    assert(name =~= "Content-Length"@);
    assert(eq_ignore_case(name, "content-length"@)) by {
        assert forall|i: int| 0 <= i < 14 implies ascii_lower(name[i]) == ascii_lower(
            "content-length"@[i],
        ) by {
            if i == 0 {
            } else if i == 1 {
            } else if i == 2 {
            } else if i == 3 {
            } else if i == 4 {
            } else if i == 5 {
            } else if i == 6 {
            } else if i == 7 {
            } else if i == 8 {
            } else if i == 9 {
            } else if i == 10 {
            } else if i == 11 {
            } else if i == 12 {
            } else {
            }
        }
    }
    let raw_v = l.subrange(15, l.len() as int);
    assert(raw_v =~= seq![' '] + d);
    assert forall|k: int| 0 <= k < d.len() implies !is_space(#[trigger] d[k]) by {
        assert(is_digit(d[k]));
    }
    assert(!is_space(raw_v[1]));
    assert(skip_space(raw_v, 1) == 1);
    assert(skip_space(raw_v, 0) == 1);
    assert(raw_v[raw_v.len() - 1] == d[d.len() - 1]);
    assert(trim_back(raw_v, 1, raw_v.len() as int) == raw_v.len());
    assert(trim(raw_v) =~= d);
    assert(d[0] != '+') by {
        assert(is_digit(d[0]));
    }
    assert(parse_unsigned(d) == Some(n));
}

proof fn lemma_fold_framing(lines: Seq<Seq<char>>, c: int, n: nat, length: Option<nat>)
    requires
        n <= MAX_RESPONSE,
        c < lines.len(),
        0 <= c ==> lines[c] == length_field(n) && length is None,
        c < 0 ==> length == Some(n),
        forall|i: int| 0 <= i < lines.len() && i != c ==> ordinary_field(#[trigger] lines[i]),
    ensures
        fold_fields(lines, length, false) == Ok::<(Option<nat>, bool), &'static str>(
            (Some(n), false),
        ),
    decreases lines.len(),
{
    if lines.len() > 0 {
        let rest = lines.drop_first();
        let c2 = if c <= 0 {
            -1
        } else {
            c - 1
        };
        assert forall|i: int| 0 <= i < rest.len() && i != c2 implies ordinary_field(
            #[trigger] rest[i],
        ) by {
            assert(rest[i] == lines[i + 1]);
        }
        if c == 0 {
            lemma_length_field(n);
            lemma_fold_framing(rest, c2, n, Some(n));
        } else {
            assert(ordinary_field(lines[0]));
            if c > 0 {
                assert(rest[c2] == lines[c]);
            }
            lemma_fold_framing(rest, c2, n, length);
        }
    }
}

proof fn lemma_tail_breaks(lines: Seq<Seq<char>>)
    requires
        forall|i: int| 0 <= i < lines.len() ==> ordinary_field(#[trigger] lines[i]) || lines[i].len()
            > 0 && no_line_break(lines[i]) && lines[i][0] != '\r',
    ensures
        forall|k: int|
            0 <= k < header_tail(lines).len() && #[trigger] header_tail(lines)[k] == '\r' ==> k + 2
                < header_tail(lines).len() && header_tail(lines)[k + 2] != '\r',
    decreases lines.len(),
{
    reveal_strlit("\r\n");
    if lines.len() > 0 {
        let rest = lines.drop_first();
        let l0 = lines[0];
        let t = header_tail(lines);
        let t2 = header_tail(rest);
        assert forall|i: int| 0 <= i < rest.len() implies ordinary_field(#[trigger] rest[i])
            || rest[i].len() > 0 && no_line_break(rest[i]) && rest[i][0] != '\r' by {
            assert(rest[i] == lines[i + 1]);
        }
        lemma_tail_breaks(rest);
        if ordinary_field(l0) {
            lemma_find_char_bounds(l0, ':', 0);
        }
        assert(l0.len() > 0 && no_line_break(l0));
        assert forall|k: int| 0 <= k < t.len() && #[trigger] t[k] == '\r' implies k + 2 < t.len()
            && t[k + 2] != '\r' by {
            if k == 0 {
                assert(t[2] == l0[0]);
            } else if k == 1 {
                assert(t[1] == '\n');
            } else if k < 2 + l0.len() {
                assert(t[k] == l0[k - 2]);
            } else {
                assert(t[k] == t2[k - 2 - l0.len()]);
                assert(t[k + 2] == t2[k - l0.len()]);
            }
        }
    }
}

/// A header line the reply framing lemmas admit: an ordinary line, or a line
/// without line breaks that does not start with CR.
spec fn plain_line(l: Seq<char>) -> bool {
    ordinary_field(l) || l.len() > 0 && no_line_break(l) && l[0] != '\r'
}

/// The header block `first` + `header_tail(lines)`, sent as ASCII bytes and
/// followed by a blank line and `payload`: the blank line is found right after
/// the block, which reads back as itself, and its head is the status of
/// `first` with what the header lines say of the framing.
proof fn lemma_reply_header(first: Seq<char>, lines: Seq<Seq<char>>, status: u16, payload: Seq<u8>)
    requires
        no_line_break(first),
        status_spec(first) == Some(status),
        lines.len() >= 1,
        forall|i: int| 0 <= i < lines.len() ==> plain_line(#[trigger] lines[i]),
        is_ascii_chars(first + header_tail(lines)),
    ensures
        ({
            let h = first + header_tail(lines);
            let raw = encode_utf8(h) + blank_line() + payload;
            &&& find_from(raw, blank_line(), 0) == Some(h.len() as int)
            &&& raw.subrange(0, h.len() as int) == encode_utf8(h)
            &&& valid_utf8(encode_utf8(h))
            &&& decode_utf8(encode_utf8(h)) == h
            &&& raw.subrange(h.len() as int + 4, raw.len() as int) == payload
            &&& head_spec(h) == match fold_fields(lines, None, false) {
                Ok((length, chunked)) => Ok::<(u16, Option<nat>, bool), &'static str>(
                    (status, length, chunked),
                ),
                Err(m) => Err(m),
            }
        }),
{
    reveal_strlit("\r\n");
    let h = first + header_tail(lines);
    let t = header_tail(lines);
    let hb = encode_utf8(h);
    let raw = hb + blank_line() + payload;
    is_ascii_chars_encode_utf8(h);
    encode_utf8_valid_utf8(h);
    encode_utf8_decode_utf8(h);
    assert(first.len() > 0);
    assert forall|k: int| 0 <= k < first.len() implies h[k] != '\r' by {
        assert(h[k] == first[k]);
    }
    lemma_find_line_break_skip(h, 0, first.len() as int);
    let t0 = header_tail(lines.drop_first());
    assert(t =~= "\r\n"@ + lines[0] + t0);
    assert(h[first.len() as int] == '\r' && h[first.len() as int + 1] == '\n');
    assert(find_line_break(h, first.len() as int) == Some(first.len() as int));
    assert(h.subrange(0, first.len() as int) =~= first);
    assert(h.subrange(first.len() as int, h.len() as int) =~= t);
    assert forall|i: int| 0 <= i < lines.len() implies no_line_break(#[trigger] lines[i]) by {
        assert(plain_line(lines[i]));
    }
    lemma_fields_tail(h, first.len() as int, lines, None, false);
    lemma_tail_breaks(lines);
    assert forall|k: int| 0 <= k < h.len() implies !#[trigger] starts_at(raw, blank_line(), k) by {
        if starts_at(raw, blank_line(), k) {
            let w = raw.subrange(k, k + 4);
            assert(w[0] == raw[k] && w[2] == raw[k + 2]);
            assert(raw[k] == hb[k]);
            assert(hb[k] == h[k] as u8);
            assert(h[k] == '\r') by {
                assert((h[k] as u32) < 128);
            }
            assert(k >= first.len());
            assert(t[k - first.len()] == h[k]);
            assert(k + 2 < h.len());
            assert(raw[k + 2] == hb[k + 2]);
            assert(hb[k + 2] == h[k + 2] as u8);
            assert(h[k + 2] == t[k + 2 - first.len()]);
            assert((h[k + 2] as u32) < 128);
        }
    }
    lemma_find_from_skip(raw, blank_line(), 0, h.len() as int);
    assert(raw.subrange(h.len() as int, h.len() as int + 4) =~= blank_line());
    assert(raw.subrange(0, h.len() as int) =~= hb);
    assert(raw.subrange(h.len() as int + 4, raw.len() as int) =~= payload);
}

proof fn lemma_length_field_no_break(n: nat)
    ensures
        no_line_break(length_field(n)),
        length_field(n)[0] == 'C',
        length_field(n).len() > 0,
{
    reveal_strlit("Content-Length: ");
    lemma_dec_chars(n);
    let l = length_field(n);
    let d = dec_chars(n);
    assert forall|k: int| 0 <= k < l.len() implies l[k] != '\r' && l[k] != '\n' by {
        if k >= 16 {
            assert(l[k] == d[k - 16]);
            assert(is_digit(d[k - 16]));
        } else {
            assert(l[k] == "Content-Length: "@[k]);
        }
    }
}

/// Framing by `Content-Length` does not depend on the other header lines: a
/// reply whose header holds one `Content-Length: n` line and otherwise only
/// ordinary lines (in any number and order) is complete as soon as `n` body
/// bytes have arrived, and reads as its status and exactly those `n` bytes,
/// whatever they hold.
pub proof fn lemma_content_length_frames_reply(
    first: Seq<char>,
    lines: Seq<Seq<char>>,
    c: int,
    n: nat,
    status: u16,
    payload: Seq<u8>,
)
    requires
        no_line_break(first),
        status_spec(first) == Some(status),
        0 <= c < lines.len(),
        lines[c] == length_field(n),
        n <= MAX_RESPONSE,
        forall|i: int| 0 <= i < lines.len() && i != c ==> ordinary_field(#[trigger] lines[i]),
        is_ascii_chars(first + header_tail(lines)),
        (first + header_tail(lines)).len() <= MAX_HEADER,
        (first + header_tail(lines)).len() + 4 + payload.len() <= MAX_RESPONSE,
        payload.len() >= n,
    ensures
        response_spec(encode_utf8(first + header_tail(lines)) + blank_line() + payload) == Ok::<
            Option<(u16, Seq<u8>)>,
            &'static str,
        >(Some((status, payload.take(n as int)))),
{
    lemma_length_field_no_break(n);
    assert forall|i: int| 0 <= i < lines.len() implies plain_line(#[trigger] lines[i]) by {
        if i != c {
            assert(ordinary_field(lines[i]));
        }
    }
    lemma_reply_header(first, lines, status, payload);
    lemma_fold_framing(lines, c, n, None);
    assert(payload.subrange(0, n as int) =~= payload.take(n as int));
}

/// The header line `Transfer-Encoding: chunked`.
pub open spec fn chunked_field() -> Seq<char> {
    "Transfer-Encoding: chunked"@
}

proof fn lemma_chunked_field()
    ensures
        field_spec(chunked_field(), None, false) == Ok::<(Option<nat>, bool), &'static str>(
            (None, true),
        ),
        no_line_break(chunked_field()),
        chunked_field().len() > 0,
        chunked_field()[0] == 'T',
{
    reveal_strlit("Transfer-Encoding: chunked");
    reveal_strlit("Transfer-Encoding");
    reveal_strlit("transfer-encoding");
    reveal_strlit("content-length");
    reveal_strlit("content-encoding");
    reveal_strlit("chunked");
    reveal_strlit(" chunked");
    let l = chunked_field();
    assert forall|k: int| 0 <= k < l.len() implies l[k] != '\r' && l[k] != '\n' by {}
    reveal_with_fuel(find_char, 19);
    assert(find_char(l, ':', 0) == Some(17int));
    let name = l.subrange(0, 17);
    assert(name =~= "Transfer-Encoding"@);
    assert(eq_ignore_case(name, "transfer-encoding"@)) by {
        assert forall|i: int| 0 <= i < 17 implies ascii_lower(name[i]) == ascii_lower(
            "transfer-encoding"@[i],
        ) by {
            if i == 0 {
            } else if i == 1 {
            } else if i == 2 {
            } else if i == 3 {
            } else if i == 4 {
            } else if i == 5 {
            } else if i == 6 {
            } else if i == 7 {
            } else if i == 8 {
            } else if i == 9 {
            } else if i == 10 {
            } else if i == 11 {
            } else if i == 12 {
            } else if i == 13 {
            } else if i == 14 {
            } else if i == 15 {
            } else {
            }
        }
    }
    let raw_v = l.subrange(18, l.len() as int);
    assert(raw_v =~= " chunked"@);
    assert(skip_space(raw_v, 1) == 1);
    assert(skip_space(raw_v, 0) == 1);
    assert(trim_back(raw_v, 1, raw_v.len() as int) == raw_v.len());
    assert(trim(raw_v) =~= "chunked"@);
    assert(eq_ignore_case("chunked"@, "chunked"@));
}

proof fn lemma_fold_chunked(lines: Seq<Seq<char>>, c: int, chunked: bool)
    requires
        c < lines.len(),
        0 <= c ==> lines[c] == chunked_field() && !chunked,
        c < 0 ==> chunked,
        forall|i: int| 0 <= i < lines.len() && i != c ==> ordinary_field(#[trigger] lines[i]),
    ensures
        fold_fields(lines, None, chunked) == Ok::<(Option<nat>, bool), &'static str>((None, true)),
    decreases lines.len(),
{
    if lines.len() > 0 {
        let rest = lines.drop_first();
        let c2 = if c <= 0 {
            -1
        } else {
            c - 1
        };
        assert forall|i: int| 0 <= i < rest.len() && i != c2 implies ordinary_field(
            #[trigger] rest[i],
        ) by {
            assert(rest[i] == lines[i + 1]);
        }
        if c == 0 {
            lemma_chunked_field();
            lemma_fold_chunked(rest, c2, true);
        } else {
            assert(ordinary_field(lines[0]));
            if c > 0 {
                assert(rest[c2] == lines[c]);
            }
            lemma_fold_chunked(rest, c2, chunked);
        }
    }
}

/// Framing by chunked coding does not depend on the other header lines: a
/// reply whose header holds one `Transfer-Encoding: chunked` line and otherwise
/// only ordinary lines (in any number and order), followed by chunks in chunked
/// coding and the last chunk, reads as its status and the chunks joined.
pub proof fn lemma_chunked_frames_reply(
    first: Seq<char>,
    lines: Seq<Seq<char>>,
    c: int,
    status: u16,
    xs: Seq<Seq<u8>>,
)
    requires
        no_line_break(first),
        status_spec(first) == Some(status),
        0 <= c < lines.len(),
        lines[c] == chunked_field(),
        forall|i: int| 0 <= i < lines.len() && i != c ==> ordinary_field(#[trigger] lines[i]),
        is_ascii_chars(first + header_tail(lines)),
        (first + header_tail(lines)).len() <= MAX_HEADER,
        forall|i: int| 0 <= i < xs.len() ==> #[trigger] xs[i].len() > 0,
        (first + header_tail(lines)).len() + 4 + (chunked(xs) + last_chunk()).len()
            <= MAX_RESPONSE,
    ensures
        response_spec(
            encode_utf8(first + header_tail(lines)) + blank_line() + (chunked(xs) + last_chunk()),
        ) == Ok::<Option<(u16, Seq<u8>)>, &'static str>(Some((status, joined(xs)))),
{
    lemma_chunked_field();
    assert forall|i: int| 0 <= i < lines.len() implies plain_line(#[trigger] lines[i]) by {
        if i != c {
            assert(ordinary_field(lines[i]));
        }
    }
    let payload = chunked(xs) + last_chunk();
    lemma_reply_header(first, lines, status, payload);
    lemma_fold_chunked(lines, c, false);
    lemma_joined_fits(xs);
    lemma_chunked_round_trip(xs, seq![]);
    assert(seq![] + joined(xs) =~= joined(xs));
}

proof fn lemma_joined_fits(xs: Seq<Seq<u8>>)
    ensures
        joined(xs).len() <= chunked(xs).len(),
    decreases xs.len(),
{
    if xs.len() > 0 {
        lemma_joined_fits(xs.drop_first());
    }
}

/// The size limits as documented: a reply of more than 256 KiB is refused, a
/// built request is at most 14 KiB, and a complete reply's body is at most
/// 256 KiB.
pub proof fn lemma_documented_sizes(
    raw: Seq<u8>,
    authority: Seq<char>,
    base: Seq<char>,
    key: Seq<char>,
    model: Seq<char>,
    ms: Seq<(Seq<char>, Seq<char>)>,
    models: bool,
)
    ensures
        raw.len() > 256 * 1024 ==> response_spec(raw) == Err::<Option<(u16, Seq<u8>)>, &'static str>(
            "Response is too large.",
        ),
        request_spec(authority, base, key, model, ms, models) is Ok ==> request_spec(
            authority,
            base,
            key,
            model,
            ms,
            models,
        )->Ok_0.len() <= 14 * 1024,
        response_spec(raw) matches Ok(Some((_, body))) ==> body.len() <= 256 * 1024,
{
    lemma_reply_body_bounded(raw);
}

/// What a reply is answered with, as shown to the user: 401 and 403 say that
/// access was denied, 404 that the path or model was not found, 429 that the
/// provider's limit was reached, any other status outside 2xx names the status;
/// a 2xx reply that is not JSON says so; a chat answer is the non-empty text at
/// `choices[0].message.content`; a model listing starts with its heading, and
/// without a `data` array says that no list was returned.
pub proof fn lemma_answer_outcomes(status: u16, doc: Option<JsonValue>, models: bool)
    ensures
        (status == 401 || status == 403) ==> answer_spec(status, doc, models) == Err::<
            Seq<char>,
            Seq<char>,
        >("Access denied: check your API key and permissions."@),
        status == 404 ==> answer_spec(status, doc, models) == Err::<Seq<char>, Seq<char>>(
            "API path or model not found."@,
        ),
        status == 429 ==> answer_spec(status, doc, models) == Err::<Seq<char>, Seq<char>>(
            "Provider limit reached. Please try again later."@,
        ),
        (status < 200 || status >= 300) && status != 401 && status != 403 && status != 404
            && status != 429 ==> answer_spec(status, doc, models) == Err::<Seq<char>, Seq<char>>(
            "API request failed (HTTP "@ + dec_chars(status as nat) + ")."@,
        ),
        200 <= status < 300 && doc is None ==> answer_spec(status, doc, models) == Err::<
            Seq<char>,
            Seq<char>,
        >("The API returned invalid JSON."@),
        200 <= status < 300 && !models ==> match answer_spec(status, doc, models) {
            Ok(text) => text.len() > 0 && string_of(
                member(member(element(member(doc, "choices"@), 0), "message"@), "content"@),
            ) == Some(text),
            Err(e) => e == "The model did not return a text response."@ || doc is None,
        },
        200 <= status < 300 && models && doc is Some && array_of(member(doc, "data"@)) is None
            ==> answer_spec(status, doc, models) == Err::<Seq<char>, Seq<char>>(
            "No model list returned. Please enter a model ID manually."@,
        ),
        200 <= status < 300 && models ==> match answer_spec(status, doc, models) {
            Ok(text) => text.len() >= "Connected. Available models:\n"@.len() && text.take(
                "Connected. Available models:\n"@.len() as int,
            ) == "Connected. Available models:\n"@,
            Err(_) => true,
        },
{
    if 200 <= status < 300 && models {
        if let Ok(text) = answer_spec(status, doc, models) {
            let head = "Connected. Available models:\n"@;
            let list = array_of(member(doc, "data"@))->0;
            assert(text == head + join_lines(first_names(model_ids(list))));
            assert(text.take(head.len() as int) =~= head);
        }
    }
}

proof fn lemma_slash_end_bounds(p: Seq<char>, j: int)
    requires
        0 <= j <= p.len(),
    ensures
        0 <= slash_end(p, j) <= j,
    decreases j,
{
    if j > 0 && p[j - 1] == '/' {
        lemma_slash_end_bounds(p, j - 1);
    }
}

} // verus!
