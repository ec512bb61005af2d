//! The one-pass stripper: recognise a token, copy its bytes, insert a space
//! only where two tokens would otherwise merge.

use vstd::prelude::*;

use crate::tokenizer::{is_digit, is_hex_digit, is_ident_char, is_ident_start_spec, scan};

verus! {

/// The stripper's token kinds.
#[derive(PartialEq, Eq, Structural, Debug, Clone, Copy)]
pub enum WsTokenType {
    Identifier,
    Number,
    Eof,
    Other,
}

/// The whitespace this pass skips.
pub open spec fn is_ws2(c: u8) -> bool {
    c == 32 || c == 9 || c == 10 || c == 12 || c == 13
}

/// Skips whitespace and line comments (`--` to the end of the line).
pub open spec fn wskip(code: Seq<u8>, i: int) -> int
    decreases code.len() - i,
    when 0 <= i
{
    if i + 1 < code.len() && code[i] == 45 && code[i + 1] == 45 {
        let i2 = scan(code, i, |c: u8| c != 10 && c != 13);
        proof {
            crate::tokenizer::lemma_scan_bounds(code, i, |c: u8| c != 10 && c != 13);
        }
        if i2 >= code.len() || !is_ws2(code[i2]) {
            i2
        } else {
            wskip(code, i2 + 1)
        }
    } else if i < code.len() && is_ws2(code[i]) {
        wskip(code, i + 1)
    } else {
        i
    }
}

/// The end of a quoted string: backslash skips a byte; stops at the end of
/// input.
pub open spec fn ws_string_end(code: Seq<u8>, pos: int, delim: u8) -> int
    decreases code.len() - pos,
    when 0 <= pos
{
    if pos >= code.len() {
        pos
    } else if code[pos] == delim {
        pos + 1
    } else if code[pos] == 92 {
        if pos + 2 <= code.len() {
            ws_string_end(code, pos + 2, delim)
        } else {
            code.len() as int
        }
    } else {
        ws_string_end(code, pos + 1, delim)
    }
}

/// Whether the close marker of the given level sits at `q`.
pub open spec fn marker_at(code: Seq<u8>, q: int, lvl: int) -> bool {
    &&& q + lvl + 2 <= code.len()
    &&& code[q] == 93
    &&& code[q + 1 + lvl] == 93
    &&& forall|o: int| 0 <= o < lvl ==> code[#[trigger] (q + 1 + o)] == 61
}

/// The first position at or after `q` holding the close marker, a zero byte,
/// or the end of input.
pub open spec fn marker_scan(code: Seq<u8>, q: int, lvl: int) -> int
    decreases code.len() - q,
    when 0 <= q
{
    if q >= code.len() {
        q
    } else if code[q] == 0 || marker_at(code, q, lvl) {
        q
    } else {
        marker_scan(code, q + 1, lvl)
    }
}

pub open spec fn min_int(a: int, b: int) -> int {
    if a < b {
        a
    } else {
        b
    }
}

/// The next stripper token at or after `i`: kind, start, end.
pub open spec fn ws_next(code: Seq<u8>, i: int) -> (WsTokenType, int, int) {
    let s = wskip(code, i);
    if s >= code.len() {
        (WsTokenType::Eof, s, s)
    } else if code[s] == 0 {
        (WsTokenType::Eof, s, s + 1)
    } else if is_ident_start_spec(code[s]) {
        (WsTokenType::Identifier, s, scan(code, s + 1, |c: u8| is_ident_char(c)))
    } else if is_digit(code[s]) || code[s] == 46 {
        let base = if code[s] == 48 && s + 1 < code.len() && (code[s + 1] | 32) == 120 {
            s + 2
        } else {
            s + 1
        };
        (WsTokenType::Number, s, scan(code, base, |c: u8| c == 46 || is_hex_digit(c)))
    } else if code[s] == 34 || code[s] == 39 {
        (WsTokenType::Other, s, ws_string_end(code, s + 1, code[s]))
    } else if code[s] == 91 {
        let lvl = scan(code, s + 1, |c: u8| c == 61) - (s + 1);
        let after = s + 1 + lvl;
        if after < code.len() && code[after] == 91 {
            let q = marker_scan(code, after + 1, lvl);
            (WsTokenType::Other, s, min_int(q + lvl + 2, code.len() as int))
        } else {
            (WsTokenType::Other, s, s + 1)
        }
    } else {
        (WsTokenType::Other, s, s + 1)
    }
}

/// Whether a separating space must stand between the last token and one that
/// begins with `first`.
pub open spec fn ws_needs_sep(last: WsTokenType, first: u8) -> bool {
    if last == WsTokenType::Identifier {
        is_ident_char(first) && first != 95 || first == 95
    } else if last == WsTokenType::Number {
        first == 46 || is_hex_digit(first)
    } else {
        false
    }
}

/// Every token's end lies past its start and inside the input; `Eof` ends the
/// scan.
pub proof fn lemma_ws_next_bounds(code: Seq<u8>, i: int)
    requires
        0 <= i,
    ensures
        ({
            let (t, s, e) = ws_next(code, i);
            &&& i <= s <= e
            &&& (t != WsTokenType::Eof ==> s + 1 <= e <= code.len())
        }),
{
    lemma_wskip_bounds(code, i);
    let s = wskip(code, i);
    if s < code.len() {
        if code[s] == 0 {
        } else if is_ident_start_spec(code[s]) {
            crate::tokenizer::lemma_scan_bounds(code, s + 1, |c: u8| is_ident_char(c));
        } else if is_digit(code[s]) || code[s] == 46 {
            let base = if code[s] == 48 && s + 1 < code.len() && (code[s + 1] | 32) == 120 {
                s + 2
            } else {
                s + 1
            };
            if base <= code.len() {
                crate::tokenizer::lemma_scan_bounds(code, base, |c: u8| c == 46 || is_hex_digit(
                    c,
                ));
            }
        } else if code[s] == 34 || code[s] == 39 {
            lemma_ws_string_end_bounds(code, s + 1, code[s]);
        } else if code[s] == 91 {
            crate::tokenizer::lemma_scan_bounds(code, s + 1, |c: u8| c == 61);
            let lvl = scan(code, s + 1, |c: u8| c == 61) - (s + 1);
            let after = s + 1 + lvl;
            if after < code.len() && code[after] == 91 {
                lemma_marker_scan_bounds(code, after + 1, lvl);
            }
        }
    }
}

pub proof fn lemma_marker_scan_bounds(code: Seq<u8>, q: int, lvl: int)
    requires
        0 <= q,
    ensures
        q <= marker_scan(code, q, lvl),
        marker_scan(code, q, lvl) <= code.len() || marker_scan(code, q, lvl) == q,
    decreases code.len() - q,
{
    if q < code.len() && !(code[q] == 0 || marker_at(code, q, lvl)) {
        lemma_marker_scan_bounds(code, q + 1, lvl);
    }
}

pub proof fn lemma_wskip_bounds(code: Seq<u8>, i: int)
    requires
        0 <= i,
    ensures
        i <= wskip(code, i),
        wskip(code, i) <= code.len() || wskip(code, i) == i,
    decreases code.len() - i,
{
    if i + 1 < code.len() && code[i] == 45 && code[i + 1] == 45 {
        let f = |c: u8| c != 10 && c != 13;
        crate::tokenizer::lemma_scan_bounds(code, i, f);
        let i2 = scan(code, i, f);
        if !(i2 >= code.len() || !is_ws2(code[i2])) {
            lemma_wskip_bounds(code, i2 + 1);
        }
    } else if i < code.len() && is_ws2(code[i]) {
        lemma_wskip_bounds(code, i + 1);
    }
}

proof fn lemma_ws_string_end_bounds(code: Seq<u8>, pos: int, delim: u8)
    requires
        0 <= pos <= code.len(),
    ensures
        pos <= ws_string_end(code, pos, delim) <= code.len(),
    decreases code.len() - pos,
{
    if pos < code.len() {
        if code[pos] == delim {
        } else if code[pos] == 92 {
            if pos + 2 <= code.len() {
                lemma_ws_string_end_bounds(code, pos + 2, delim);
            }
        } else {
            lemma_ws_string_end_bounds(code, pos + 1, delim);
        }
    }
}

/// The stripped output from position `i` on, after a token of kind `last`.
pub open spec fn strip_spec(code: Seq<u8>, i: int, last: WsTokenType) -> Seq<u8>
    decreases code.len() - i,
    when 0 <= i
{
    let (t, s, e) = ws_next(code, i);
    proof {
        lemma_ws_next_bounds(code, i);
    }
    if t == WsTokenType::Eof {
        Seq::empty()
    } else {
        let sep: Seq<u8> = if ws_needs_sep(last, code[s]) {
            seq![32u8]
        } else {
            Seq::empty()
        };
        sep + code.subrange(s, e) + strip_spec(code, e, t)
    }
}


/// A cursor over the input.
pub struct Input<'a> {
    code: &'a [u8],
    pos: usize,
}

impl<'a> Input<'a> {
    pub closed spec fn code_spec(&self) -> Seq<u8> {
        self.code@
    }

    pub closed spec fn pos_spec(&self) -> int {
        self.pos as int
    }

    pub open spec fn wf(&self) -> bool {
        self.pos_spec() <= self.code_spec().len()
    }

    pub fn new(code: &'a [u8]) -> (r: Input<'a>)
        ensures
            r.wf(),
            r.code_spec() == code@,
            r.pos_spec() == 0,
    {
        Input { code, pos: 0 }
    }
}

fn ws_skip_x(code: &[u8], i: usize) -> (r: usize)
    requires
        i <= code@.len(),
    ensures
        r == wskip(code@, i as int),
        i <= r <= code@.len(),
    decreases code@.len() - i,
{
    proof {
        lemma_wskip_bounds(code@, i as int);
    }
    if i < code.len() && i + 1 < code.len() && code[i] == 45 && code[i + 1] == 45 {
        let mut j = i;
        while j < code.len() && code[j] != 10 && code[j] != 13
            invariant
                i <= j <= code@.len(),
                scan(code@, i as int, |c: u8| c != 10 && c != 13) == scan(code@, j as int, |c: u8| c != 10 && c != 13),
            decreases code@.len() - j,
        {
            j = j + 1;
        }
        proof {
            crate::tokenizer::lemma_scan_bounds(code@, i as int, |c: u8| c != 10 && c != 13);
        }
        if j >= code.len() || !is_ws2_x(code[j]) {
            j
        } else {
            ws_skip_x(code, j + 1)
        }
    } else if i < code.len() && is_ws2_x(code[i]) {
        ws_skip_x(code, i + 1)
    } else {
        i
    }
}

fn is_ws2_x(c: u8) -> (r: bool)
    ensures
        r == is_ws2(c),
{
    c == 32 || c == 9 || c == 10 || c == 12 || c == 13
}

/// Reads the next token; `Eof` at (or on a zero byte near) the end of input.
#[verifier::loop_isolation(false)]
#[verifier::rlimit(60)]
pub fn next_token<'a>(inp: &mut Input<'a>) -> (r: (WsTokenType, Vec<u8>))
    requires
        old(inp).wf(),
    ensures
        final(inp).wf(),
        final(inp).code_spec() == old(inp).code_spec(),
        ({
            let (t, s, e) = ws_next(old(inp).code_spec(), old(inp).pos_spec());
            &&& r.0 == t
            &&& r.1@ == old(inp).code_spec().subrange(s, e)
            &&& final(inp).pos_spec() == e
        }),
{
    let code = inp.code;
    let ghost i0 = inp.pos as int;
    proof {
        lemma_ws_next_bounds(code@, i0);
    }
    let s = ws_skip_x(code, inp.pos);
    if s >= code.len() {
        inp.pos = s;
        proof {
            assert(code@.subrange(s as int, s as int) =~= Seq::<u8>::empty());
        }
        return (WsTokenType::Eof, Vec::new());
    }
    let c = code[s];
    if c == 0 {
        inp.pos = s + 1;
        return (WsTokenType::Eof, crate::tokenizer::copy_byte_range(code, s, s + 1));
    }
    if crate::tokenizer::is_valid_ident_start(c) {
        let e = crate::tokenizer::scan_word(code, s + 1);
        inp.pos = e;
        return (WsTokenType::Identifier, crate::tokenizer::copy_byte_range(code, s, e));
    }
    if (48 <= c && c <= 57) || c == 46 {
        let base = if c == 48 && s + 1 < code.len() && (code[s + 1] | 32) == 120 {
            s + 2
        } else {
            s + 1
        };
        let mut j = base;
        while j < code.len() && (code[j] == 46 || ((48 <= code[j] && code[j] <= 57) || (97 <= (
        code[j] | 32) && (code[j] | 32) <= 102)))
            invariant
                base <= j <= code@.len(),
                scan(code@, base as int, |x: u8| x == 46 || is_hex_digit(x)) == scan(code@,
                    j as int, |x: u8| x == 46 || is_hex_digit(x)),
            decreases code@.len() - j,
        {
            j = j + 1;
        }
        inp.pos = j;
        proof {
            crate::tokenizer::lemma_scan_bounds(code@, base as int, |x: u8| x == 46
                || is_hex_digit(x));
        }
        return (WsTokenType::Number, crate::tokenizer::copy_byte_range(code, s, j));
    }
    if c == 34 || c == 39 {
        let mut pos = s + 1;
        let mut fin = false;
        while !fin
            invariant
                s + 1 <= pos <= code@.len(),
                !fin ==> ws_string_end(code@, s + 1 as int, c) == ws_string_end(
                    code@,
                    pos as int,
                    c,
                ),
                fin ==> pos == ws_string_end(code@, s + 1 as int, c),
            decreases code@.len() - pos + if fin {
                0int
            } else {
                1int
            },
        {
            if pos >= code.len() {
                fin = true;
            } else if code[pos] == c {
                pos = pos + 1;
                fin = true;
            } else if code[pos] == 92 {
                if code.len() - pos >= 2 {
                    pos = pos + 2;
                } else {
                    pos = code.len();
                    fin = true;
                }
            } else {
                pos = pos + 1;
            }
        }
        inp.pos = pos;
        return (WsTokenType::Other, crate::tokenizer::copy_byte_range(code, s, pos));
    }
    if c == 91 {
        let mut j = s + 1;
        while j < code.len() && code[j] == 61
            invariant
                s + 1 <= j <= code@.len(),
                scan(code@, s + 1 as int, |x: u8| x == 61) == scan(code@, j as int, |x: u8| x
                    == 61),
            decreases code@.len() - j,
        {
            j = j + 1;
        }
        let lvl = j - (s + 1);
        if j < code.len() && code[j] == 91 {
            let mut q = j + 1;
            while q < code.len() && code[q] != 0 && !marker_at_x(code, q, lvl)
                invariant
                    j + 1 <= q <= code@.len(),
                    marker_scan(code@, j + 1 as int, lvl as int) == marker_scan(code@, q as int,
                        lvl as int),
                decreases code@.len() - q,
            {
                q = q + 1;
            }
            let e = if code.len() - q < lvl + 2 {
                code.len()
            } else {
                q + lvl + 2
            };
            inp.pos = e;
            return (WsTokenType::Other, crate::tokenizer::copy_byte_range(code, s, e));
        }
        inp.pos = s + 1;
        return (WsTokenType::Other, crate::tokenizer::copy_byte_range(code, s, s + 1));
    }
    inp.pos = s + 1;
    (WsTokenType::Other, crate::tokenizer::copy_byte_range(code, s, s + 1))
}

fn marker_at_x(code: &[u8], q: usize, lvl: usize) -> (r: bool)
    requires
        q < code@.len(),
    ensures
        r == marker_at(code@, q as int, lvl as int),
{
    let n = code.len();
    if n - q < 2 || n - q - 2 < lvl {
        return false;
    }
    if code[q] != 93 || code[q + 1 + lvl] != 93 {
        return false;
    }
    let mut o: usize = 0;
    while o < lvl
        invariant
            o <= lvl,
            n == code@.len(),
            q + lvl + 2 <= n,
            code@[q as int] == 93,
            code@[q + 1 + lvl] == 93,
            forall|x: int| 0 <= x < o ==> code@[#[trigger] (q + 1 + x)] == 61,
        decreases lvl - o,
    {
        if code[q + 1 + o] != 61 {
            return false;
        }
        o = o + 1;
    }
    true
}

/// Strips comments and needless whitespace from source text.
#[verifier::loop_isolation(false)]
pub fn strip_whitespace(code: &[u8]) -> (r: Vec<u8>)
    ensures
        r@ == strip_spec(code@, 0, WsTokenType::Other),
{
    let mut inp = Input::new(code);
    let mut out: Vec<u8> = Vec::new();
    let mut last = WsTokenType::Other;
    let mut done = false;
    proof {
        assert(out@ =~= Seq::<u8>::empty());
    }
    while !done
        invariant
            inp.wf(),
            inp.code_spec() == code@,
            !done ==> out@ + strip_spec(code@, inp.pos_spec(), last) == strip_spec(
                code@,
                0,
                WsTokenType::Other,
            ),
            done ==> out@ == strip_spec(code@, 0, WsTokenType::Other),
        decreases code@.len() - inp.pos_spec() + if done {
            0int
        } else {
            1int
        },
    {
        let ghost cur = inp.pos_spec();
        proof {
            lemma_ws_next_bounds(code@, cur);
        }
        let (t, text) = next_token(&mut inp);
        if t == WsTokenType::Eof {
            proof {
                assert(out@ =~= out@ + Seq::<u8>::empty());
            }
            done = true;
            continue ;
        }
        let ghost out_pre = out@;
        if text.len() > 0 && ws_needs_sep_x(last, text[0]) {
            out.push(32);
        }
        let mut k: usize = 0;
        let ghost out_sep = out@;
        while k < text.len()
            invariant
                k <= text@.len(),
                out@ == out_sep + text@.subrange(0, k as int),
            decreases text@.len() - k,
        {
            out.push(text[k]);
            proof {
                assert(out_sep + text@.subrange(0, k + 1) =~= (out_sep + text@.subrange(0,
                    k as int)).push(text@[k as int]));
            }
            k = k + 1;
        }
        proof {
            let (ts, ss, es) = ws_next(code@, cur);
            assert(text@.subrange(0, text@.len() as int) =~= text@);
            assert(text@[0] == code@[ss]);
            assert(out@ + strip_spec(code@, inp.pos_spec(), t) =~= strip_spec(
                code@,
                0,
                WsTokenType::Other,
            ));
        }
        last = t;
    }
    out
}

fn ws_needs_sep_x(last: WsTokenType, first: u8) -> (r: bool)
    ensures
        r == ws_needs_sep(last, first),
{
    match last {
        WsTokenType::Identifier => first == 95 || (97 <= (first | 32) && (first | 32) <= 122) || (
        48 <= first && first <= 57),
        WsTokenType::Number => first == 46 || (48 <= first && first <= 57) || (97 <= (first | 32)
            && (first | 32) <= 102),
        _ => false,
    }
}

} // verus!
