//! The tokeniser: longest-match recognition of comments, identifiers,
//! numbers, strings, long-bracket strings and operators, one token per call.

use vstd::prelude::*;

use crate::token::TokenType;

verus! {

pub open spec fn is_space(c: u8) -> bool {
    c == 32 || c == 9 || c == 10 || c == 11 || c == 12 || c == 13
}

pub open spec fn is_digit(c: u8) -> bool {
    48 <= c <= 57
}

pub open spec fn is_hex_digit(c: u8) -> bool {
    is_digit(c) || (97 <= (c | 32) <= 102)
}

pub open spec fn is_alpha(c: u8) -> bool {
    97 <= (c | 32) <= 122
}

pub open spec fn is_ident_start_spec(c: u8) -> bool {
    c == 95 || is_alpha(c)
}

pub open spec fn is_ident_char(c: u8) -> bool {
    is_ident_start_spec(c) || is_digit(c)
}

/// The first position at or after `i` where `f` stops holding.
pub open spec fn scan(code: Seq<u8>, i: int, f: spec_fn(u8) -> bool) -> int
    decreases code.len() - i,
{
    if 0 <= i < code.len() && f(code[i]) {
        scan(code, i + 1, f)
    } else {
        i
    }
}

pub proof fn lemma_scan_bounds(code: Seq<u8>, i: int, f: spec_fn(u8) -> bool)
    requires
        0 <= i <= code.len(),
    ensures
        i <= scan(code, i, f) <= code.len(),
        forall|j: int| i <= j < scan(code, i, f) ==> f(code[j]),
        scan(code, i, f) < code.len() ==> !f(code[scan(code, i, f)]),
    decreases code.len() - i,
{
    if i < code.len() && f(code[i]) {
        lemma_scan_bounds(code, i + 1, f);
    }
}

/// Whether a long bracket `[=*[` of some level opens at `j`, and its level.
pub open spec fn bracket_level(code: Seq<u8>, j: int) -> int {
    scan(code, j + 1, |c: u8| c == 61) - (j + 1)
}

pub open spec fn bracket_opens(code: Seq<u8>, j: int) -> bool {
    let lvl = bracket_level(code, j);
    &&& 0 <= j < code.len()
    &&& code[j] == 91
    &&& j + 1 + lvl < code.len()
    &&& code[j + 1 + lvl] == 91
}

/// A closing `]=*]` of the given level at `p`.
pub open spec fn close_at(code: Seq<u8>, p: int, level: int) -> bool {
    &&& code[p] == 93
    &&& code[p + 1 + level] == 93
    &&& forall|o: int| 0 <= o < level ==> code[#[trigger] (p + 1 + o)] == 61
}

/// The end (absolute) of a long bracket token whose scan is at `q`: the
/// first close of the level, or the cut-off near the end of input, plus the
/// closer itself.
pub open spec fn lbe_abs(code: Seq<u8>, q: int, level: int) -> int
    decreases code.len() - q,
    when 0 <= level
{
    if q + level + 2 < code.len() {
        if close_at(code, q, level) {
            q + 2 + level
        } else {
            lbe_abs(code, q + 1, level)
        }
    } else {
        q + 2 + level
    }
}

/// The end of a quoted string whose opening delimiter sits before `pos`:
/// a backslash skips the following byte; the delimiter closes.
pub open spec fn string_end(code: Seq<u8>, pos: int, delim: u8) -> int
    decreases code.len() - pos,
{
    if pos >= code.len() {
        pos
    } else {
        let c = code[pos];
        if c == delim {
            pos + 1
        } else if c == 92 && pos + 1 < code.len() {
            proof {
                assert(code.len() - (pos + 2) < code.len() - pos);
            }
            string_end(code, pos + 2, delim)
        } else {
            string_end(code, pos + 1, delim)
        }
    }
}

/// Where a decimal number starting at `i` ends (`i` holds a digit, or a dot
/// followed by a digit).
pub open spec fn number_end(code: Seq<u8>, i: int) -> int {
    let j = if is_digit(code[i]) {
        let j0 = scan(code, i, |c: u8| is_digit(c));
        if j0 < code.len() && code[j0] == 46 {
            scan(code, j0 + 1, |c: u8| is_digit(c))
        } else {
            j0
        }
    } else {
        scan(code, i + 1, |c: u8| is_digit(c))
    };
    exp_end(code, j, 101)
}

/// The end of an optional exponent part at `j` (`e`/`E` or `p`/`P` given by
/// `letter`, an optional minus, then at least one digit).
pub open spec fn exp_end(code: Seq<u8>, j: int, letter: u8) -> int {
    if j < code.len() && (code[j] | 32) == letter {
        let k = if j + 1 < code.len() && code[j + 1] == 45 {
            j + 2
        } else {
            j + 1
        };
        let d = scan(code, k, |c: u8| is_digit(c));
        if d > k {
            d
        } else {
            j
        }
    } else {
        j
    }
}

/// Where a hexadecimal number starting at `i` ends (`i` holds `0`, `i+1`
/// holds `x` or `X`).
pub open spec fn hex_end(code: Seq<u8>, i: int) -> int {
    let j0 = scan(code, i + 2, |c: u8| is_hex_digit(c));
    let j = if j0 < code.len() && code[j0] == 46 {
        scan(code, j0 + 1, |c: u8| is_hex_digit(c))
    } else {
        j0
    };
    exp_end(code, j, 112)
}

/// Whether a hexadecimal number starts at `i`.
pub open spec fn hex_starts(code: Seq<u8>, i: int) -> bool {
    &&& code[i] == 48
    &&& i + 1 < code.len()
    &&& (code[i + 1] | 32) == 120
}

/// Whether a decimal number starts at `i`.
pub open spec fn number_starts(code: Seq<u8>, i: int) -> bool {
    is_digit(code[i]) || (code[i] == 46 && i + 1 < code.len() && is_digit(code[i + 1]))
}

/// Whether one of `== ~= <= >=` starts at `i`.
pub open spec fn compound_starts(code: Seq<u8>, i: int) -> bool {
    &&& i + 1 < code.len()
    &&& (code[i] == 61 || code[i] == 126 || code[i] == 60 || code[i] == 62)
    &&& code[i + 1] == 61
}

/// The next token at or after `pos`: its kind, start and end. The text is
/// `code[start..end)`; `Eof` has an empty span at the end of input.
pub open spec fn next_token_spec(code: Seq<u8>, pos: int) -> (TokenType, int, int) {
    let i = scan(code, pos, |c: u8| is_space(c));
    if i >= code.len() {
        (TokenType::Eof, i, i)
    } else if i + 1 < code.len() && code[i] == 45 && code[i + 1] == 45 && bracket_opens(
        code,
        i + 2,
    ) {
        (TokenType::Comment, i, lbe_abs(code, i, bracket_level(code, i + 2)))
    } else if i + 1 < code.len() && code[i] == 45 && code[i + 1] == 45 {
        (TokenType::Comment, i, scan(code, i, |c: u8| c != 10))
    } else if is_ident_start_spec(code[i]) {
        (TokenType::Identifier, i, scan(code, i + 1, |c: u8| is_ident_char(c)))
    } else if hex_starts(code, i) {
        (TokenType::HexNumber, i, hex_end(code, i))
    } else if number_starts(code, i) {
        (TokenType::Number, i, number_end(code, i))
    } else if code[i] == 34 || code[i] == 39 {
        (TokenType::Str, i, string_end(code, i + 1, code[i]))
    } else if bracket_opens(code, i) {
        (TokenType::Other, i, lbe_abs(code, i, bracket_level(code, i)))
    } else if compound_starts(code, i) {
        (TokenType::Other, i, i + 2)
    } else {
        (TokenType::Other, i, i + 1)
    }
}


/// The end of a run of identifier characters from `i`.
pub(crate) fn scan_word(code: &[u8], i: usize) -> (r: usize)
    requires
        i <= code@.len(),
    ensures
        r == scan(code@, i as int, |c: u8| is_ident_char(c)),
        i <= r <= code@.len(),
{
    let mut j = i;
    while j < code.len() && is_ident_char_x(code[j])
        invariant
            i <= j <= code@.len(),
            scan(code@, i as int, |c: u8| is_ident_char(c)) == scan(code@, j as int, |c: u8| is_ident_char(c)),
        decreases code@.len() - j,
    {
        j = j + 1;
    }
    j
}

/// Copies `code[s..e)`.
pub(crate) fn copy_byte_range(code: &[u8], s: usize, e: usize) -> (r: Vec<u8>)
    requires
        s <= e <= code@.len(),
    ensures
        r@ == code@.subrange(s as int, e as int),
{
    copy_range(code, s, e)
}

/// Copies `code[s..e)`.
fn copy_range(code: &[u8], s: usize, e: usize) -> (r: Vec<u8>)
    requires
        s <= e <= code@.len(),
    ensures
        r@ == code@.subrange(s as int, e as int),
{
    let mut out: Vec<u8> = Vec::new();
    let mut i = s;
    while i < e
        invariant
            s <= i <= e <= code@.len(),
            out@ == code@.subrange(s as int, i as int),
        decreases e - i,
    {
        out.push(code[i]);
        proof {
            assert(code@.subrange(s as int, i + 1 as int) =~= code@.subrange(s as int,
                i as int).push(code@[i as int]));
        }
        i = i + 1;
    }
    out
}

pub fn is_valid_ident_start(c: u8) -> (r: bool)
    ensures
        r == is_ident_start_spec(c),
{
    c == 95 || (97 <= (c | 32) && (c | 32) <= 122)
}

fn is_ident_char_x(c: u8) -> (r: bool)
    ensures
        r == is_ident_char(c),
{
    is_valid_ident_start(c) || (48 <= c && c <= 57)
}

fn is_digit_x(c: u8) -> (r: bool)
    ensures
        r == is_digit(c),
{
    48 <= c && c <= 57
}

fn is_hex_x(c: u8) -> (r: bool)
    ensures
        r == is_hex_digit(c),
{
    (48 <= c && c <= 57) || (97 <= (c | 32) && (c | 32) <= 102)
}

fn is_space_x(c: u8) -> (r: bool)
    ensures
        r == is_space(c),
{
    c == 32 || c == 9 || c == 10 || c == 11 || c == 12 || c == 13
}

pub(crate) fn scan_space(code: &[u8], i: usize) -> (r: usize)
    requires
        i <= code@.len(),
    ensures
        r == scan(code@, i as int, |c: u8| is_space(c)),
        i <= r <= code@.len(),
{
    let mut j = i;
    while j < code.len() && is_space_x(code[j])
        invariant
            i <= j <= code@.len(),
            scan(code@, i as int, |c: u8| is_space(c)) == scan(code@, j as int, |c: u8| is_space(c)),
        decreases code@.len() - j,
    {
        j = j + 1;
    }
    j
}

fn scan_ident(code: &[u8], i: usize) -> (r: usize)
    requires
        i <= code@.len(),
    ensures
        r == scan(code@, i as int, |c: u8| is_ident_char(c)),
        i <= r <= code@.len(),
{
    let mut j = i;
    while j < code.len() && is_ident_char_x(code[j])
        invariant
            i <= j <= code@.len(),
            scan(code@, i as int, |c: u8| is_ident_char(c)) == scan(code@, j as int, |c: u8| is_ident_char(c)),
        decreases code@.len() - j,
    {
        j = j + 1;
    }
    j
}

fn scan_digits(code: &[u8], i: usize) -> (r: usize)
    requires
        i <= code@.len(),
    ensures
        r == scan(code@, i as int, |c: u8| is_digit(c)),
        i <= r <= code@.len(),
{
    let mut j = i;
    while j < code.len() && is_digit_x(code[j])
        invariant
            i <= j <= code@.len(),
            scan(code@, i as int, |c: u8| is_digit(c)) == scan(code@, j as int, |c: u8| is_digit(c)),
        decreases code@.len() - j,
    {
        j = j + 1;
    }
    j
}

fn scan_hex(code: &[u8], i: usize) -> (r: usize)
    requires
        i <= code@.len(),
    ensures
        r == scan(code@, i as int, |c: u8| is_hex_digit(c)),
        i <= r <= code@.len(),
{
    let mut j = i;
    while j < code.len() && is_hex_x(code[j])
        invariant
            i <= j <= code@.len(),
            scan(code@, i as int, |c: u8| is_hex_digit(c)) == scan(code@, j as int, |c: u8| is_hex_digit(c)),
        decreases code@.len() - j,
    {
        j = j + 1;
    }
    j
}

fn scan_eq(code: &[u8], i: usize) -> (r: usize)
    requires
        i <= code@.len(),
    ensures
        r == scan(code@, i as int, |c: u8| c == 61),
        i <= r <= code@.len(),
{
    let mut j = i;
    while j < code.len() && code[j] == 61
        invariant
            i <= j <= code@.len(),
            scan(code@, i as int, |c: u8| c == 61) == scan(code@, j as int, |c: u8| c == 61),
        decreases code@.len() - j,
    {
        j = j + 1;
    }
    j
}

fn scan_line(code: &[u8], i: usize) -> (r: usize)
    requires
        i <= code@.len(),
    ensures
        r == scan(code@, i as int, |c: u8| c != 10),
        i <= r <= code@.len(),
{
    let mut j = i;
    while j < code.len() && code[j] != 10
        invariant
            i <= j <= code@.len(),
            scan(code@, i as int, |c: u8| c != 10) == scan(code@, j as int, |c: u8| c != 10),
        decreases code@.len() - j,
    {
        j = j + 1;
    }
    j
}

/// Whether a long bracket opens at `j`; returns its level.
fn bracket_opens_x(code: &[u8], j: usize) -> (r: Option<usize>)
    requires
        j <= code@.len(),
    ensures
        match r {
            Some(lvl) => bracket_opens(code@, j as int) && lvl == bracket_level(code@, j as int),
            None => !bracket_opens(code@, j as int),
        },
{
    if j >= code.len() || code[j] != 91 {
        return None;
    }
    let e = scan_eq(code, j + 1);
    let lvl = e - (j + 1);
    if e < code.len() && code[e] == 91 {
        Some(lvl)
    } else {
        proof {
            lemma_scan_bounds(code@, j + 1, |c: u8| c == 61);
        }
        None
    }
}

/// The end of a long bracket token: scans for the matching close.
fn long_bracket_end(code: &[u8], start: usize, level: usize) -> (r: usize)
    requires
        start + level + 2 <= code@.len(),
    ensures
        r == lbe_abs(code@, start as int, level as int),
        start + level + 2 <= r <= code@.len(),
{
    proof {
        lemma_lbe_bounds(code@, start as int, level as int);
    }
    let n = code.len();
    let mut q = start;
    while q + level + 2 < n && !close_at_x(code, q, level)
        invariant
            n == code@.len(),
            start <= q,
            q + level + 2 <= n,
            lbe_abs(code@, start as int, level as int) == lbe_abs(code@, q as int, level as int),
        decreases code@.len() - q,
    {
        q = q + 1;
    }
    q + 2 + level
}

fn close_at_x(code: &[u8], p: usize, level: usize) -> (r: bool)
    requires
        p + level + 2 < code@.len(),
    ensures
        r == close_at(code@, p as int, level as int),
{
    let n = code.len();
    if code[p] != 93 || code[p + 1 + level] != 93 {
        return false;
    }
    let mut o: usize = 0;
    while o < level
        invariant
            n == code@.len(),
            o <= level,
            p + level + 2 < n,
            code@[p as int] == 93,
            code@[p + 1 + level] == 93,
            forall|x: int| 0 <= x < o ==> code@[#[trigger] (p + 1 + x)] == 61,
        decreases level - o,
    {
        if code[p + 1 + o] != 61 {
            return false;
        }
        o = o + 1;
    }
    true
}

/// `lbe_abs` stays between the opener's end and the end of input.
pub proof fn lemma_lbe_bounds(code: Seq<u8>, q: int, level: int)
    requires
        0 <= level,
        0 <= q,
        q + level + 2 <= code.len(),
    ensures
        q + level + 2 <= lbe_abs(code, q, level) <= code.len(),
    decreases code.len() - q,
{
    if q + level + 2 < code.len() && !close_at(code, q, level) {
        lemma_lbe_bounds(code, q + 1, level);
    }
}

/// The end of the quoted-string scan.
fn string_end_x(code: &[u8], start: usize, delim: u8) -> (r: usize)
    requires
        start <= code@.len(),
    ensures
        r == string_end(code@, start as int, delim),
        start <= r <= code@.len(),
{
    let mut pos = start;
    loop
        invariant
            start <= pos <= code@.len(),
            string_end(code@, start as int, delim) == string_end(code@, pos as int, delim),
        ensures
            pos == string_end(code@, start as int, delim),
        decreases code@.len() - pos,
    {
        if pos >= code.len() {
            return pos;
        }
        let c = code[pos];
        if c == delim {
            return pos + 1;
        }
        if c == 92 && pos + 1 < code.len() {
            pos = pos + 2;
        } else {
            pos = pos + 1;
        }
    }
}

/// The optional exponent part (`e`/`E` or `p`/`P`, optional minus, at least
/// one digit).
fn exp_end_x(code: &[u8], j: usize, letter: u8) -> (r: usize)
    requires
        j <= code@.len(),
    ensures
        r == exp_end(code@, j as int, letter),
        j <= r <= code@.len(),
{
    if j < code.len() && (code[j] | 32) == letter {
        let k = if j + 1 < code.len() && code[j + 1] == 45 {
            j + 2
        } else {
            j + 1
        };
        if k > code.len() {
            proof {
                lemma_scan_bounds(code@, k as int, |c: u8| is_digit(c));
            }
            return j;
        }
        let d = scan_digits(code, k);
        if d > k {
            d
        } else {
            j
        }
    } else {
        j
    }
}

/// Reads the next token: its kind, its raw bytes, and its start offset.
/// `offset` moves to the token's end. At the end of input the kind is `Eof`
/// with empty text.
pub fn next_token(code: &[u8], offset: &mut usize) -> (r: (TokenType, Vec<u8>, usize))
    requires
        *old(offset) <= code@.len(),
    ensures
        ({
            let (t, s, e) = next_token_spec(code@, *old(offset) as int);
            &&& r.0 == t
            &&& r.2 == s
            &&& *final(offset) == e
            &&& r.1@ == code@.subrange(s, e)
            &&& s <= e <= code@.len()
        }),
{
    let ghost pos0 = *offset as int;
    let i = scan_space(code, *offset);
    proof {
        lemma_scan_bounds(code@, pos0, |c: u8| is_space(c));
    }
    if i >= code.len() {
        *offset = i;
        proof {
            assert(code@.subrange(i as int, i as int) =~= Seq::<u8>::empty());
        }
        return (TokenType::Eof, Vec::new(), i);
    }
    if i + 1 < code.len() && code[i] == 45 && code[i + 1] == 45 {
        match bracket_opens_x(code, i + 2) {
            Some(lvl) => {
                let e = long_bracket_end(code, i, lvl);
                *offset = e;
                return (TokenType::Comment, copy_range(code, i, e), i);
            },
            None => {
                let e = scan_line(code, i);
                *offset = e;
                return (TokenType::Comment, copy_range(code, i, e), i);
            },
        }
    }
    let c = code[i];
    if is_valid_ident_start(c) {
        let e = scan_ident(code, i + 1);
        *offset = e;
        return (TokenType::Identifier, copy_range(code, i, e), i);
    }
    if c == 48 && i + 1 < code.len() && (code[i + 1] | 32) == 120 {
        let j0 = scan_hex(code, i + 2);
        let j = if j0 < code.len() && code[j0] == 46 {
            scan_hex(code, j0 + 1)
        } else {
            j0
        };
        let e = exp_end_x(code, j, 112);
        *offset = e;
        return (TokenType::HexNumber, copy_range(code, i, e), i);
    }
    if (48 <= c && c <= 57) || (c == 46 && i + 1 < code.len() && 48 <= code[i + 1] && code[i + 1]
        <= 57) {
        let j = if 48 <= c && c <= 57 {
            let j0 = scan_digits(code, i);
            if j0 < code.len() && code[j0] == 46 {
                scan_digits(code, j0 + 1)
            } else {
                j0
            }
        } else {
            scan_digits(code, i + 1)
        };
        let e = exp_end_x(code, j, 101);
        *offset = e;
        return (TokenType::Number, copy_range(code, i, e), i);
    }
    if c == 34 || c == 39 {
        let e = string_end_x(code, i + 1, c);
        *offset = e;
        return (TokenType::Str, copy_range(code, i, e), i);
    }
    match bracket_opens_x(code, i) {
        Some(lvl) => {
            let e = long_bracket_end(code, i, lvl);
            *offset = e;
            return (TokenType::Other, copy_range(code, i, e), i);
        },
        None => {},
    }
    if i + 1 < code.len() && (c == 61 || c == 126 || c == 60 || c == 62) && code[i + 1] == 61 {
        *offset = i + 2;
        return (TokenType::Other, copy_range(code, i, i + 2), i);
    }
    *offset = i + 1;
    (TokenType::Other, copy_range(code, i, i + 1), i)
}

} // verus!

