//! Character- and byte-level building blocks shared by the HTTP framing,
//! the URL parser and the chat view: whitespace, trimming, searching,
//! number parsing and decimal formatting, each with its specification.
use vstd::prelude::*;
use vstd::utf8::*;

verus! {

broadcast use vstd::string::axiom_spec_iter;

// ---------------------------------------------------------------------------
// Whitespace and trimming
// ---------------------------------------------------------------------------

/// The Unicode `White_Space` property, which `char::is_whitespace`, `str::trim`
/// and `str::split_whitespace` use.
pub open spec fn is_space(c: char) -> bool {
    let u = c as u32;
    ||| 0x9 <= u <= 0xd
    ||| u == 0x20
    ||| u == 0x85
    ||| u == 0xa0
    ||| u == 0x1680
    ||| 0x2000 <= u <= 0x200a
    ||| u == 0x2028
    ||| u == 0x2029
    ||| u == 0x202f
    ||| u == 0x205f
    ||| u == 0x3000
}

pub fn char_is_space(c: char) -> (r: bool)
    ensures
        r == is_space(c),
{
    let u = c as u32;
    (0x9 <= u && u <= 0xd) || u == 0x20 || u == 0x85 || u == 0xa0 || u == 0x1680 || (0x2000
        <= u && u <= 0x200a) || u == 0x2028 || u == 0x2029 || u == 0x202f || u == 0x205f || u
        == 0x3000
}

/// The first index at or after `i` that does not hold whitespace (or the length).
pub open spec fn skip_space(s: Seq<char>, i: int) -> int
    decreases s.len() - i,
{
    if i < 0 || i >= s.len() {
        s.len() as int
    } else if is_space(s[i]) {
        skip_space(s, i + 1)
    } else {
        i
    }
}

/// The first index at or after `i` that holds whitespace (or the length).
pub open spec fn token_end(s: Seq<char>, i: int) -> int
    decreases s.len() - i,
{
    if i < 0 || i >= s.len() {
        s.len() as int
    } else if is_space(s[i]) {
        i
    } else {
        token_end(s, i + 1)
    }
}

/// The end of the span `lo..j` once trailing whitespace is dropped.
pub open spec fn trim_back(s: Seq<char>, lo: int, j: int) -> int
    decreases j - lo,
{
    if j <= lo {
        lo
    } else if is_space(s[j - 1]) {
        trim_back(s, lo, j - 1)
    } else {
        j
    }
}

/// `str::trim`: the text without leading and trailing whitespace.
pub open spec fn trim(s: Seq<char>) -> Seq<char> {
    let lo = skip_space(s, 0);
    s.subrange(lo, trim_back(s, lo, s.len() as int))
}

pub fn skip_space_exec(s: &[char], i: usize) -> (r: usize)
    requires
        i <= s@.len(),
    ensures
        r == skip_space(s@, i as int),
        i <= r <= s@.len(),
{
    let mut j = i;
    while j < s.len() && char_is_space(s[j])
        invariant
            i <= j <= s@.len(),
            skip_space(s@, i as int) == skip_space(s@, j as int),
        decreases s@.len() - j,
    {
        j = j + 1;
    }
    j
}

pub fn token_end_exec(s: &[char], i: usize) -> (r: usize)
    requires
        i <= s@.len(),
    ensures
        r == token_end(s@, i as int),
        i <= r <= s@.len(),
{
    let mut j = i;
    while j < s.len() && !char_is_space(s[j])
        invariant
            i <= j <= s@.len(),
            token_end(s@, i as int) == token_end(s@, j as int),
        decreases s@.len() - j,
    {
        j = j + 1;
    }
    j
}

/// The bounds of `str::trim` within `s`.
pub fn trim_span(s: &[char]) -> (r: (usize, usize))
    ensures
        r.0 <= r.1 <= s@.len(),
        s@.subrange(r.0 as int, r.1 as int) == trim(s@),
{
    let lo = skip_space_exec(s, 0);
    let mut hi = s.len();
    while hi > lo && char_is_space(s[hi - 1])
        invariant
            lo <= hi <= s@.len(),
            trim_back(s@, lo as int, s@.len() as int) == trim_back(s@, lo as int, hi as int),
        decreases hi - lo,
    {
        hi = hi - 1;
    }
    (lo, hi)
}

// ---------------------------------------------------------------------------
// Searching
// ---------------------------------------------------------------------------

/// The first index at or after `i` where `pat` occurs in `s`.
pub open spec fn find_from(s: Seq<u8>, pat: Seq<u8>, i: int) -> Option<int>
    decreases s.len() - i,
{
    if i < 0 || i >= s.len() || i + pat.len() > s.len() {
        None
    } else if s.subrange(i, i + pat.len()) == pat {
        Some(i)
    } else {
        find_from(s, pat, i + 1)
    }
}

pub open spec fn crlf() -> Seq<u8> {
    seq![13u8, 10u8]
}

pub open spec fn blank_line() -> Seq<u8> {
    seq![13u8, 10u8, 13u8, 10u8]
}

pub proof fn lemma_find_from_bounds(s: Seq<u8>, pat: Seq<u8>, i: int)
    requires
        0 <= i,
    ensures
        find_from(s, pat, i) matches Some(j) ==> i <= j && j + pat.len() <= s.len()
            && s.subrange(j, j + pat.len()) == pat,
    decreases s.len() - i,
{
    if i < s.len() && i + pat.len() <= s.len() && s.subrange(i, i + pat.len()) != pat {
        lemma_find_from_bounds(s, pat, i + 1);
    }
}

/// Positions without CR can be skipped: the search for a CR LF from `i` finds
/// what the search from `n` finds.
pub proof fn lemma_find_line_break_skip(s: Seq<char>, i: int, n: int)
    requires
        0 <= i <= n,
        forall|k: int| i <= k < n && k < s.len() ==> s[k] != '\r',
    ensures
        find_line_break(s, i) == find_line_break(s, n),
    decreases n - i,
{
    if i < n {
        if i + 1 < s.len() {
            lemma_find_line_break_skip(s, i + 1, n);
        } else {
            lemma_find_line_break_past(s, n);
        }
    }
}

proof fn lemma_find_line_break_past(s: Seq<char>, n: int)
    requires
        n + 1 >= s.len(),
    ensures
        find_line_break(s, n) is None,
{
}

/// `pat` occurs in `s` at position `k`.
pub open spec fn starts_at(s: Seq<u8>, pat: Seq<u8>, k: int) -> bool {
    0 <= k && k + pat.len() <= s.len() && s.subrange(k, k + pat.len()) == pat
}

/// Positions where `pat` does not start can be skipped: the search from `i`
/// finds what the search from `n` finds.
pub proof fn lemma_find_from_skip(s: Seq<u8>, pat: Seq<u8>, i: int, n: int)
    requires
        0 <= i <= n,
        pat.len() > 0,
        forall|k: int| i <= k < n ==> !#[trigger] starts_at(s, pat, k),
    ensures
        find_from(s, pat, i) == find_from(s, pat, n),
    decreases n - i,
{
    if i < n {
        assert(!starts_at(s, pat, i));
        if i < s.len() && i + pat.len() <= s.len() {
            lemma_find_from_skip(s, pat, i + 1, n);
        }
    }
}

/// Bytes below 0x80 are valid UTF-8.
pub proof fn lemma_ascii_valid_utf8(s: Seq<u8>)
    requires
        forall|k: int| 0 <= k < s.len() ==> s[k] < 128,
    ensures
        valid_utf8(s),
{
    assert(s.subrange(0, 0) =~= Seq::<u8>::empty());
    assert(valid_utf8(Seq::<u8>::empty()));
    assert forall|i: int| 0 <= 0 <= i < s.len() <= s.len() implies #[trigger] is_leading_byte_width_1(
        s[i],
    ) by {}
    partial_valid_utf8_extend_ascii_block(s, 0, s.len() as int);
    assert(s.subrange(0, s.len() as int) =~= s);
}

/// A pattern found in a prefix of `s` is found at the same place in `s`, and one
/// that `s` holds entirely within the prefix is found there.
pub proof fn lemma_find_from_prefix(s: Seq<u8>, pat: Seq<u8>, i: int, k: int)
    requires
        0 <= i,
        0 <= k <= s.len(),
        pat.len() > 0,
    ensures
        match find_from(s, pat, i) {
            Some(j) => if j + pat.len() <= k {
                find_from(s.take(k), pat, i) == Some(j)
            } else {
                find_from(s.take(k), pat, i) is None
            },
            None => find_from(s.take(k), pat, i) is None,
        },
    decreases s.len() - i,
{
    let p = s.take(k);
    if i < s.len() && i + pat.len() <= s.len() {
        if i + pat.len() <= k {
            assert(p.subrange(i, i + pat.len()) =~= s.subrange(i, i + pat.len()));
        }
        if s.subrange(i, i + pat.len()) != pat {
            lemma_find_from_prefix(s, pat, i + 1, k);
        }
    }
}

/// The first position at or after `from` of the two bytes CR LF.
pub fn find_crlf(s: &[u8], from: usize) -> (r: Option<usize>)
    ensures
        r matches Some(j) ==> (find_from(s@, crlf(), from as int) == Some(j as int) && from <= j
            && j + 2 <= s@.len()),
        r is None ==> find_from(s@, crlf(), from as int) is None,
{
    let mut i = from;
    while i < s.len()
        invariant
            from <= i,
            find_from(s@, crlf(), from as int) == find_from(s@, crlf(), i as int),
        decreases s@.len() - i,
    {
        if s.len() - i < 2 {
            return None;
        }
        if s[i] == 13 && s[i + 1] == 10 {
            assert(s@.subrange(i as int, i + 2) =~= crlf());
            return Some(i);
        }
        assert(s@.subrange(i as int, i + 2) != crlf()) by {
            assert(s@.subrange(i as int, i + 2)[0] == s@[i as int]);
            assert(s@.subrange(i as int, i + 2)[1] == s@[i + 1]);
        }
        i = i + 1;
    }
    None
}

/// The first position at or after `from` of CR LF CR LF.
pub fn find_blank_line(s: &[u8], from: usize) -> (r: Option<usize>)
    ensures
        r matches Some(j) ==> (find_from(s@, blank_line(), from as int) == Some(j as int) && from
            <= j && j + 4 <= s@.len()),
        r is None ==> find_from(s@, blank_line(), from as int) is None,
{
    let mut i = from;
    while i < s.len()
        invariant
            from <= i,
            find_from(s@, blank_line(), from as int) == find_from(s@, blank_line(), i as int),
        decreases s@.len() - i,
    {
        if s.len() - i < 4 {
            return None;
        }
        if s[i] == 13 && s[i + 1] == 10 && s[i + 2] == 13 && s[i + 3] == 10 {
            assert(s@.subrange(i as int, i + 4) =~= blank_line());
            return Some(i);
        }
        assert(s@.subrange(i as int, i + 4) != blank_line()) by {
            let w = s@.subrange(i as int, i + 4);
            assert(w[0] == s@[i as int]);
            assert(w[1] == s@[i + 1]);
            assert(w[2] == s@[i + 2]);
            assert(w[3] == s@[i + 3]);
        }
        i = i + 1;
    }
    None
}

/// The first index at or after `i` where `s` holds `c`.
pub open spec fn find_char(s: Seq<char>, c: char, i: int) -> Option<int>
    decreases s.len() - i,
{
    if i < 0 || i >= s.len() {
        None
    } else if s[i] == c {
        Some(i)
    } else {
        find_char(s, c, i + 1)
    }
}

pub proof fn lemma_find_char_bounds(s: Seq<char>, c: char, i: int)
    requires
        0 <= i,
    ensures
        find_char(s, c, i) matches Some(j) ==> i <= j < s.len() && s[j] == c,
        find_char(s, c, i) is None ==> forall|k: int| i <= k < s.len() ==> s[k] != c,
    decreases s.len() - i,
{
    if i < s.len() && s[i] != c {
        lemma_find_char_bounds(s, c, i + 1);
    }
}

/// Positions without `c` can be skipped: the search from `i` finds what the
/// search from `n` finds.
pub proof fn lemma_find_char_skip(s: Seq<char>, c: char, i: int, n: int)
    requires
        0 <= i <= n,
        forall|k: int| i <= k < n && k < s.len() ==> s[k] != c,
    ensures
        find_char(s, c, i) == find_char(s, c, n),
    decreases n - i,
{
    if i < n && i < s.len() {
        lemma_find_char_skip(s, c, i + 1, n);
    } else if i < n {
        lemma_find_char_none_past_end(s, c, n);
    }
}

proof fn lemma_find_char_none_past_end(s: Seq<char>, c: char, n: int)
    requires
        n >= s.len(),
    ensures
        find_char(s, c, n) is None,
{
}

/// The search finds the first `c` at or after `i`.
pub proof fn lemma_find_char_first(s: Seq<char>, c: char, i: int)
    requires
        0 <= i,
    ensures
        find_char(s, c, i) matches Some(j) ==> forall|k: int| i <= k < j ==> s[k] != c,
    decreases s.len() - i,
{
    if i < s.len() && s[i] != c {
        lemma_find_char_first(s, c, i + 1);
    }
}

pub fn find_char_exec(s: &[char], c: char, from: usize) -> (r: Option<usize>)
    ensures
        r matches Some(j) ==> (find_char(s@, c, from as int) == Some(j as int) && from <= j
            < s@.len()),
        r is None ==> find_char(s@, c, from as int) is None,
{
    let mut i = from;
    while i < s.len()
        invariant
            from <= i,
            find_char(s@, c, from as int) == find_char(s@, c, i as int),
        decreases s@.len() - i,
    {
        if s[i] == c {
            return Some(i);
        }
        i = i + 1;
    }
    None
}

/// The first index at or after `i` where the characters CR LF start.
pub open spec fn find_line_break(s: Seq<char>, i: int) -> Option<int>
    decreases s.len() - i,
{
    if i < 0 || i + 1 >= s.len() {
        None
    } else if s[i] == '\r' && s[i + 1] == '\n' {
        Some(i)
    } else {
        find_line_break(s, i + 1)
    }
}

pub proof fn lemma_find_line_break_bounds(s: Seq<char>, i: int)
    requires
        0 <= i,
    ensures
        find_line_break(s, i) matches Some(j) ==> i <= j && j + 2 <= s.len(),
    decreases s.len() - i,
{
    if i + 1 < s.len() && !(s[i] == '\r' && s[i + 1] == '\n') {
        lemma_find_line_break_bounds(s, i + 1);
    }
}

pub fn find_line_break_exec(s: &[char], from: usize) -> (r: Option<usize>)
    ensures
        r matches Some(j) ==> (find_line_break(s@, from as int) == Some(j as int) && from <= j
            && j + 2 <= s@.len()),
        r is None ==> find_line_break(s@, from as int) is None,
{
    let mut i = from;
    while i < s.len() && s.len() - i > 1
        invariant
            from <= i,
            find_line_break(s@, from as int) == find_line_break(s@, i as int),
        decreases s@.len() - i,
    {
        if s[i] == '\r' && s[i + 1] == '\n' {
            return Some(i);
        }
        i = i + 1;
    }
    None
}

// ---------------------------------------------------------------------------
// Case-insensitive comparison
// ---------------------------------------------------------------------------

/// The code of `c` after ASCII lowercasing.
pub open spec fn ascii_lower(c: char) -> int {
    let u = c as u32;
    if 65 <= u <= 90 {
        u + 32
    } else {
        u as int
    }
}

/// `str::eq_ignore_ascii_case`.
pub open spec fn eq_ignore_case(a: Seq<char>, b: Seq<char>) -> bool {
    &&& a.len() == b.len()
    &&& forall|i: int| 0 <= i < a.len() ==> ascii_lower(a[i]) == ascii_lower(b[i])
}

pub fn eq_ignore_case_exec(a: &[char], b: &[char]) -> (r: bool)
    ensures
        r == eq_ignore_case(a@, b@),
{
    if a.len() != b.len() {
        return false;
    }
    let mut i: usize = 0;
    while i < a.len()
        invariant
            a@.len() == b@.len(),
            i <= a@.len(),
            forall|k: int| 0 <= k < i ==> ascii_lower(a@[k]) == ascii_lower(b@[k]),
        decreases a@.len() - i,
    {
        let x = a[i] as u32;
        let y = b[i] as u32;
        let lx = if 65 <= x && x <= 90 { x + 32 } else { x };
        let ly = if 65 <= y && y <= 90 { y + 32 } else { y };
        if lx != ly {
            return false;
        }
        i = i + 1;
    }
    true
}

// ---------------------------------------------------------------------------
// Numbers
// ---------------------------------------------------------------------------

pub open spec fn is_digit(c: char) -> bool {
    '0' <= c <= '9'
}

pub open spec fn all_digits(d: Seq<char>) -> bool {
    forall|i: int| 0 <= i < d.len() ==> is_digit(d[i])
}

/// The value of a run of ASCII decimal digits.
pub open spec fn dec_value(s: Seq<char>) -> nat
    decreases s.len(),
{
    if s.len() == 0 {
        0
    } else {
        dec_value(s.drop_last()) * 10 + ((s.last() as u32) - 48) as nat
    }
}

/// What `str::parse` accepts for an unsigned integer: an optional `+`, then one or
/// more ASCII digits; the value before any range check.
pub open spec fn parse_unsigned(s: Seq<char>) -> Option<nat> {
    let d = if s.len() > 0 && s[0] == '+' {
        s.drop_first()
    } else {
        s
    };
    if d.len() > 0 && all_digits(d) {
        Some(dec_value(d))
    } else {
        None
    }
}

/// `str::parse` for an unsigned type whose largest value is `bound`.
pub open spec fn parse_bounded(s: Seq<char>, bound: nat) -> Option<nat> {
    match parse_unsigned(s) {
        Some(v) => if v <= bound {
            Some(v)
        } else {
            None
        },
        None => None,
    }
}

pub fn parse_decimal(s: &[char], bound: u64) -> (r: Option<u64>)
    requires
        bound <= 0xffff_ffff,
    ensures
        r matches Some(v) ==> parse_bounded(s@, bound as nat) == Some(v as nat),
        r is None ==> parse_bounded(s@, bound as nat) is None,
{
    let start: usize = if s.len() > 0 && s[0] == '+' {
        1
    } else {
        0
    };
    let ghost d = if s@.len() > 0 && s@[0] == '+' {
        s@.drop_first()
    } else {
        s@
    };
    assert(d =~= s@.subrange(start as int, s@.len() as int));
    if start == s.len() {
        return None;
    }
    let mut acc: u64 = 0;
    let mut over = false;
    let mut i = start;
    while i < s.len()
        invariant
            start <= i <= s@.len(),
            d =~= s@.subrange(start as int, s@.len() as int),
            d == (if s@.len() > 0 && s@[0] == '+' {
                s@.drop_first()
            } else {
                s@
            }),
            bound <= 0xffff_ffff,
            forall|k: int| start <= k < i ==> is_digit(s@[k]),
            !over ==> acc as nat == dec_value(s@.subrange(start as int, i as int)) && acc
                <= bound,
            over ==> dec_value(s@.subrange(start as int, i as int)) > bound,
        decreases s@.len() - i,
    {
        let c = s[i];
        if !('0' <= c && c <= '9') {
            assert(d[i - start] == c);
            assert(!is_digit(d[i - start]));
            assert(!all_digits(d));
            assert(parse_unsigned(s@) is None);
            return None;
        }
        let ghost prev = s@.subrange(start as int, i as int);
        let ghost next = s@.subrange(start as int, i + 1);
        assert(next.drop_last() =~= prev);
        assert(next.last() == c);
        if !over {
            let digit = (c as u32 - 48) as u64;
            let v = acc * 10 + digit;
            if v > bound {
                over = true;
            } else {
                acc = v;
            }
        }
        i = i + 1;
    }
    assert(s@.subrange(start as int, s@.len() as int) =~= d);
    if over {
        None
    } else {
        Some(acc)
    }
}

pub open spec fn hex_digit_value(b: u8) -> nat {
    if 48 <= b <= 57 {
        (b - 48) as nat
    } else if 97 <= b <= 102 {
        (b - 87) as nat
    } else {
        (b - 55) as nat
    }
}

pub open spec fn is_hex_digit(b: u8) -> bool {
    (48 <= b <= 57) || (97 <= b <= 102) || (65 <= b <= 70)
}

pub open spec fn all_hex_digits(d: Seq<u8>) -> bool {
    forall|i: int| 0 <= i < d.len() ==> is_hex_digit(d[i])
}

/// The value of a run of ASCII hexadecimal digits.
pub open spec fn hex_value(s: Seq<u8>) -> nat
    decreases s.len(),
{
    if s.len() == 0 {
        0
    } else {
        hex_value(s.drop_last()) * 16 + hex_digit_value(s.last())
    }
}

/// `usize::from_str_radix(_, 16)`: an optional `+`, then one or more hexadecimal
/// digits, with a value that fits in `usize`.
pub open spec fn parse_hex(s: Seq<u8>) -> Option<nat> {
    let d = if s.len() > 0 && s[0] == 43u8 {
        s.drop_first()
    } else {
        s
    };
    if d.len() > 0 && all_hex_digits(d) && hex_value(d) <= usize::MAX {
        Some(hex_value(d))
    } else {
        None
    }
}

pub fn parse_hex_exec(s: &[u8]) -> (r: Option<usize>)
    ensures
        r matches Some(v) ==> parse_hex(s@) == Some(v as nat),
        r is None ==> parse_hex(s@) is None,
{
    let start: usize = if s.len() > 0 && s[0] == 43u8 {
        1
    } else {
        0
    };
    let ghost d = if s@.len() > 0 && s@[0] == 43u8 {
        s@.drop_first()
    } else {
        s@
    };
    assert(d =~= s@.subrange(start as int, s@.len() as int));
    if start == s.len() {
        return None;
    }
    let mut acc: usize = 0;
    let mut over = false;
    let mut i = start;
    while i < s.len()
        invariant
            start <= i <= s@.len(),
            d =~= s@.subrange(start as int, s@.len() as int),
            d == (if s@.len() > 0 && s@[0] == 43u8 {
                s@.drop_first()
            } else {
                s@
            }),
            forall|k: int| start <= k < i ==> is_hex_digit(s@[k]),
            !over ==> acc as nat == hex_value(s@.subrange(start as int, i as int)),
            over ==> hex_value(s@.subrange(start as int, i as int)) > usize::MAX,
        decreases s@.len() - i,
    {
        let b = s[i];
        let digit: usize = if 48 <= b && b <= 57 {
            (b - 48) as usize
        } else if 97 <= b && b <= 102 {
            (b - 87) as usize
        } else if 65 <= b && b <= 70 {
            (b - 55) as usize
        } else {
            assert(d[i - start] == b);
            assert(!is_hex_digit(d[i - start]));
            assert(!all_hex_digits(d));
            assert(parse_hex(s@) is None);
            return None;
        };
        let ghost prev = s@.subrange(start as int, i as int);
        let ghost next = s@.subrange(start as int, i + 1);
        assert(next.drop_last() =~= prev);
        assert(next.last() == b);
        if !over {
            match acc.checked_mul(16) {
                Some(m) => match m.checked_add(digit) {
                    Some(v) => {
                        acc = v;
                    },
                    None => {
                        over = true;
                    },
                },
                None => {
                    over = true;
                },
            }
        }
        i = i + 1;
    }
    assert(s@.subrange(start as int, s@.len() as int) =~= d);
    if over {
        None
    } else {
        Some(acc)
    }
}

/// The ASCII digit for `d < 10`.
pub open spec fn digit_char(d: nat) -> char {
    ((d + 48) as u8) as char
}

/// The decimal representation of `n`, as `Display` writes it.
pub open spec fn dec_chars(n: nat) -> Seq<char>
    decreases n,
{
    if n < 10 {
        seq![digit_char(n)]
    } else {
        dec_chars(n / 10).push(digit_char(n % 10))
    }
}

/// The decimal representation of `n` is a run of digits that reads back as `n`.
pub proof fn lemma_dec_chars(n: nat)
    ensures
        dec_chars(n).len() >= 1,
        all_digits(dec_chars(n)),
        dec_value(dec_chars(n)) == n,
    decreases n,
{
    let d = dec_chars(n);
    if n < 10 {
        assert(d.drop_last() =~= Seq::<char>::empty());
        assert((digit_char(n) as u32) == n + 48);
        assert(d.last() == digit_char(n));
        assert(dec_value(d.drop_last()) == 0);
        assert(dec_value(d) == dec_value(d.drop_last()) * 10 + ((d.last() as u32) - 48) as nat);
    } else {
        lemma_dec_chars(n / 10);
        assert(d.drop_last() =~= dec_chars(n / 10));
        let r = (n % 10) as nat;
        assert((digit_char(r) as u32) == r + 48);
        assert(n == (n / 10) * 10 + r);
        assert(d.last() == digit_char(r));
        assert(dec_value(d) == dec_value(d.drop_last()) * 10 + ((d.last() as u32) - 48) as nat);
        assert forall|i: int| 0 <= i < d.len() implies is_digit(d[i]) by {
            if i < d.len() - 1 {
                assert(d[i] == dec_chars(n / 10)[i]);
            }
        }
    }
}

/// Appends the decimal representation of `n`.
pub fn push_decimal(out: &mut Vec<char>, n: u64)
    ensures
        final(out)@ == old(out)@ + dec_chars(n as nat),
    decreases n,
{
    if n >= 10 {
        push_decimal(out, n / 10);
    }
    let d = (n % 10) as u8;
    out.push((48u8 + d) as char);
    proof {
        if n >= 10 {
            assert(final(out)@ =~= old(out)@ + dec_chars(n as nat));
        } else {
            assert(final(out)@ =~= old(out)@ + dec_chars(n as nat));
        }
    }
}

// ---------------------------------------------------------------------------
// Character classes and UTF-8 lengths
// ---------------------------------------------------------------------------

/// `char::is_control`: the general category `Cc`.
pub open spec fn is_control(c: char) -> bool {
    let u = c as u32;
    u <= 0x1f || (0x7f <= u <= 0x9f)
}

pub fn char_is_control(c: char) -> (r: bool)
    ensures
        r == is_control(c),
{
    let u = c as u32;
    u <= 0x1f || (0x7f <= u && u <= 0x9f)
}

/// `char::len_utf8`: how many bytes UTF-8 takes for `c`.
pub open spec fn utf8_width(c: char) -> nat {
    let u = c as u32;
    if u < 0x80 {
        1
    } else if u < 0x800 {
        2
    } else if u < 0x10000 {
        3
    } else {
        4
    }
}

pub fn char_utf8_width(c: char) -> (r: usize)
    ensures
        r == utf8_width(c),
{
    let u = c as u32;
    if u < 0x80 {
        1
    } else if u < 0x800 {
        2
    } else if u < 0x10000 {
        3
    } else {
        4
    }
}

/// How many bytes UTF-8 takes for `s` (what `str::len` gives).
pub open spec fn utf8_len(s: Seq<char>) -> nat
    decreases s.len(),
{
    if s.len() == 0 {
        0
    } else {
        utf8_len(s.drop_last()) + utf8_width(s.last())
    }
}

pub proof fn lemma_utf8_len_prefix(s: Seq<char>, i: int)
    requires
        0 <= i <= s.len(),
    ensures
        utf8_len(s.take(i)) <= utf8_len(s),
        s.len() <= utf8_len(s),
    decreases s.len(),
{
    if s.len() > 0 {
        if i == s.len() {
            assert(s.take(i) =~= s);
            lemma_utf8_len_prefix(s.drop_last(), i - 1);
        } else {
            assert(s.take(i) =~= s.drop_last().take(i));
            lemma_utf8_len_prefix(s.drop_last(), i);
        }
    }
}

pub fn utf8_len_exec(s: &[char]) -> (r: usize)
    requires
        utf8_len(s@) <= usize::MAX,
    ensures
        r == utf8_len(s@),
{
    let mut total: usize = 0;
    let mut i: usize = 0;
    while i < s.len()
        invariant
            i <= s@.len(),
            utf8_len(s@) <= usize::MAX,
            total == utf8_len(s@.take(i as int)),
        decreases s@.len() - i,
    {
        proof {
            lemma_utf8_len_prefix(s@, i + 1);
            assert(s@.take(i + 1).drop_last() =~= s@.take(i as int));
        }
        total = total + char_utf8_width(s[i]);
        i = i + 1;
    }
    assert(s@.take(s@.len() as int) =~= s@);
    total
}

// ---------------------------------------------------------------------------
// Strings
// ---------------------------------------------------------------------------

/// The characters of `s`, in order.
pub fn chars_of(s: &str) -> (r: Vec<char>)
    ensures
        r@ == s@,
{
    let mut v: Vec<char> = Vec::new();
    for c in it: s.chars()
        invariant
            v@ == it.seq().take(it.index() as int),
    {
        v.push(c);
    }
    v
}

/// Appends the characters of `s` to `out`.
pub fn push_str(out: &mut Vec<char>, s: &str)
    ensures
        final(out)@ == old(out)@ + s@,
{
    let v = chars_of(s);
    push_chars(out, v.as_slice());
}

/// Appends `s` to `out`.
pub fn push_chars(out: &mut Vec<char>, s: &[char])
    ensures
        final(out)@ == old(out)@ + s@,
{
    let ghost start = out@;
    let mut i: usize = 0;
    while i < s.len()
        invariant
            i <= s@.len(),
            out@ == start + s@.subrange(0, i as int),
        decreases s@.len() - i,
    {
        out.push(s[i]);
        i = i + 1;
        assert(out@ =~= start + s@.subrange(0, i as int));
    }
    assert(s@.subrange(0, s@.len() as int) =~= s@);
}

/// Whether two character runs are equal.
pub fn chars_eq(a: &[char], b: &[char]) -> (r: bool)
    ensures
        r == (a@ == b@),
{
    if a.len() != b.len() {
        return false;
    }
    let mut i: usize = 0;
    while i < a.len()
        invariant
            a@.len() == b@.len(),
            i <= a@.len(),
            forall|k: int| 0 <= k < i ==> a@[k] == b@[k],
        decreases a@.len() - i,
    {
        if a[i] != b[i] {
            return false;
        }
        i = i + 1;
    }
    assert(a@ =~= b@);
    true
}

/// `String::from_iter` on characters: a `String` holding exactly `v`.
#[verifier::external_body]
pub(crate) fn string_from_chars(v: &[char]) -> (r: String)
    ensures
        r@ == v@,
{
    String::from_iter(v)
}

/// `core::str::from_utf8`: the bytes as text when they are valid UTF-8, nothing
/// when they are not.
#[verifier::external_body]
pub(crate) fn str_from_utf8(b: &[u8]) -> (r: Option<&str>)
    ensures
        r is Some <==> valid_utf8(b@),
        r matches Some(t) ==> t@ == decode_utf8(b@),
{
    core::str::from_utf8(b).ok()
}

/// The characters that the bytes `b` encode, when they are valid UTF-8.
pub fn utf8_chars(b: &[u8]) -> (r: Option<Vec<char>>)
    ensures
        r is Some <==> valid_utf8(b@),
        r matches Some(c) ==> c@ == decode_utf8(b@),
{
    match str_from_utf8(b) {
        Some(t) => Some(chars_of(t)),
        None => None,
    }
}

} // verus!
