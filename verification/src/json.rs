//! A JSON reader for the bridge's wire format.
//!
//! One inbound transport frame carries one JSON document.  The grammar
//! accepted here is ordinary JSON over UTF-8 bytes: objects, arrays,
//! strings with escapes (including `\u` escapes and surrogate pairs),
//! numbers, booleans and null, with the four whitespace bytes allowed
//! between tokens.  The spec functions below define the grammar once, as
//! the mathematical model; the executable scanners are proved to return
//! exactly what the model says.
//!
//! String contents are modelled as the decoded bytes (escapes resolved,
//! `\u` escapes re-encoded as UTF-8).  Numbers are never interpreted by
//! the bridge, so a number is modelled as its literal text.

use vstd::prelude::*;
use vstd::slice::slice_index_get;

verus! {

/// The model of a parsed JSON value.
pub enum Json {
    Null,
    Bool(bool),
    /// The literal text of the number, uninterpreted.
    Num(Seq<u8>),
    /// The decoded contents of the string, as UTF-8 bytes.
    Str(Seq<u8>),
    Arr(Seq<Json>),
    Obj(Seq<(Seq<u8>, Json)>),
}

/// The four whitespace bytes JSON allows between tokens.
pub open spec fn is_ws(b: u8) -> bool {
    b == 0x20 || b == 0x09 || b == 0x0a || b == 0x0d
}

pub open spec fn is_digit(b: u8) -> bool {
    0x30 <= b <= 0x39
}

/// The termination measure of the parsing functions: the input left from
/// `i` on, never negative.
pub open spec fn rem(s: Seq<u8>, i: int) -> int {
    if s.len() - i >= 0 {
        s.len() - i
    } else {
        0
    }
}

/// The first index at or after `i` that does not hold whitespace.
pub open spec fn skip_ws(s: Seq<u8>, i: int) -> int
    decreases rem(s, i),
{
    if 0 <= i < s.len() && is_ws(s[i]) {
        skip_ws(s, i + 1)
    } else {
        i
    }
}

/// `j`, raised to `lo` if it lies below it.  The parsing functions step
/// through the input with indices produced by other parsing functions;
/// clamping each step keeps every recursion visibly decreasing.  Whenever
/// a step succeeds the clamp is the identity.
pub open spec fn at_least(j: int, lo: int) -> int {
    if j < lo {
        lo
    } else {
        j
    }
}

/// The value of one hexadecimal digit byte.
pub open spec fn hex_val(b: u8) -> Option<int> {
    if 0x30 <= b <= 0x39 {
        Some(b - 0x30)
    } else if 0x61 <= b <= 0x66 {
        Some(b - 0x61 + 10)
    } else if 0x41 <= b <= 0x46 {
        Some(b - 0x41 + 10)
    } else {
        None
    }
}

/// The value of the four hexadecimal digits at `i`.
pub open spec fn hex4(s: Seq<u8>, i: int) -> Option<int> {
    if 0 <= i && i + 4 <= s.len() {
        match (hex_val(s[i]), hex_val(s[i + 1]), hex_val(s[i + 2]), hex_val(s[i + 3])) {
            (Some(a), Some(b), Some(c), Some(d)) => Some(a * 4096 + b * 256 + c * 16 + d),
            _ => None,
        }
    } else {
        None
    }
}

/// The UTF-8 encoding of the code point `cp` (meaningful for
/// `0 <= cp <= 0x10FFFF`).
pub open spec fn utf8_enc(cp: int) -> Seq<u8> {
    if cp < 0x80 {
        seq![cp as u8]
    } else if cp < 0x800 {
        seq![(0xC0 + cp / 64) as u8, (0x80 + cp % 64) as u8]
    } else if cp < 0x10000 {
        seq![(0xE0 + cp / 4096) as u8, (0x80 + (cp / 64) % 64) as u8, (0x80 + cp % 64) as u8]
    } else {
        seq![
            (0xF0 + cp / 262144) as u8,
            (0x80 + (cp / 4096) % 64) as u8,
            (0x80 + (cp / 64) % 64) as u8,
            (0x80 + cp % 64) as u8,
        ]
    }
}

/// Decode the escape whose introducing byte stands at `i` (the byte after
/// the backslash): the decoded bytes and the index after the escape.
/// A high surrogate must be followed by a second `\u` escape holding a
/// low surrogate; a lone surrogate of either kind is an error.
pub open spec fn unescape_at(s: Seq<u8>, i: int) -> Option<(Seq<u8>, int)> {
    if !(0 <= i < s.len()) {
        None
    } else {
        let c = s[i];
        if c == 0x22 {  // "
            Some((seq![0x22u8], i + 1))
        } else if c == 0x5C {  // backslash
            Some((seq![0x5Cu8], i + 1))
        } else if c == 0x2F {  // /
            Some((seq![0x2Fu8], i + 1))
        } else if c == 0x62 {  // b
            Some((seq![0x08u8], i + 1))
        } else if c == 0x66 {  // f
            Some((seq![0x0Cu8], i + 1))
        } else if c == 0x6E {  // n
            Some((seq![0x0Au8], i + 1))
        } else if c == 0x72 {  // r
            Some((seq![0x0Du8], i + 1))
        } else if c == 0x74 {  // t
            Some((seq![0x09u8], i + 1))
        } else if c == 0x75 {  // u
            match hex4(s, i + 1) {
                None => None,
                Some(cp) => if 0xD800 <= cp < 0xDC00 {
                    if i + 7 <= s.len() && s[i + 5] == 0x5C && s[i + 6] == 0x75 {
                        match hex4(s, i + 7) {
                            None => None,
                            Some(lo) => if 0xDC00 <= lo < 0xE000 {
                                Some(
                                    (
                                        utf8_enc(0x10000 + (cp - 0xD800) * 1024 + (lo - 0xDC00)),
                                        i + 11,
                                    ),
                                )
                            } else {
                                None
                            },
                        }
                    } else {
                        None
                    }
                } else if 0xDC00 <= cp < 0xE000 {
                    None
                } else {
                    Some((utf8_enc(cp), i + 5))
                },
            }
        } else {
            None
        }
    }
}

/// The body of a string, starting at `i`, the index just after the
/// opening quote: the decoded contents and the index after the closing
/// quote.  Unescaped control bytes below 0x20 are not allowed.
pub open spec fn str_body(s: Seq<u8>, i: int) -> Option<(Seq<u8>, int)>
    decreases rem(s, i),
{
    if !(0 <= i < s.len()) {
        None
    } else {
        let c = s[i];
        if c == 0x22 {  // closing "
            Some((Seq::empty(), i + 1))
        } else if c == 0x5C {
            match unescape_at(s, i + 1) {
                None => None,
                Some((dec, j)) => match str_body(s, at_least(j, i + 1)) {
                    None => None,
                    Some((rest, end)) => Some((dec + rest, end)),
                },
            }
        } else if c < 0x20 {
            None
        } else {
            match str_body(s, i + 1) {
                None => None,
                Some((rest, end)) => Some((seq![c] + rest, end)),
            }
        }
    }
}

/// The first index at or after `i` that does not hold a decimal digit.
pub open spec fn digits_end(s: Seq<u8>, i: int) -> int
    decreases rem(s, i),
{
    if 0 <= i < s.len() && is_digit(s[i]) {
        digits_end(s, i + 1)
    } else {
        i
    }
}

/// The end of the optional fraction part beginning at `i`.
pub open spec fn frac_end(s: Seq<u8>, i: int) -> Option<int> {
    if 0 <= i < s.len() && s[i] == 0x2E {  // .
        if i + 1 < s.len() && is_digit(s[i + 1]) {
            Some(digits_end(s, i + 1))
        } else {
            None
        }
    } else {
        Some(i)
    }
}

/// The end of the optional exponent part beginning at `i`.
pub open spec fn exp_end(s: Seq<u8>, i: int) -> Option<int> {
    if 0 <= i < s.len() && (s[i] == 0x65 || s[i] == 0x45) {  // e | E
        let j = if i + 1 < s.len() && (s[i + 1] == 0x2B || s[i + 1] == 0x2D) {  // + | -
            i + 2
        } else {
            i + 1
        };
        if 0 <= j < s.len() && is_digit(s[j]) {
            Some(digits_end(s, j))
        } else {
            None
        }
    } else {
        Some(i)
    }
}

/// The end of the number literal beginning at `i`: an optional minus, an
/// integer part with no leading zero, then optional fraction and exponent.
pub open spec fn num_end(s: Seq<u8>, i: int) -> Option<int> {
    let j0 = if 0 <= i < s.len() && s[i] == 0x2D {  // -
        i + 1
    } else {
        i
    };
    if !(0 <= j0 < s.len() && is_digit(s[j0])) {
        None
    } else {
        let j1 = if s[j0] == 0x30 {
            j0 + 1
        } else {
            digits_end(s, j0)
        };
        match frac_end(s, j1) {
            None => None,
            Some(j2) => exp_end(s, j2),
        }
    }
}

/// The value beginning at `i` (whitespace already skipped): the parsed
/// value and the index just after it.
pub open spec fn parse_value(s: Seq<u8>, i: int) -> Option<(Json, int)>
    decreases rem(s, i), 0int,
{
    if !(0 <= i < s.len()) {
        None
    } else {
        let c = s[i];
        if c == 0x22 {  // "
            match str_body(s, i + 1) {
                None => None,
                Some((cs, j)) => Some((Json::Str(cs), j)),
            }
        } else if c == 0x7B {  // {
            let j = at_least(skip_ws(s, i + 1), i + 1);
            if j < s.len() && s[j] == 0x7D {  // }
                Some((Json::Obj(Seq::empty()), j + 1))
            } else {
                match parse_members(s, j) {
                    None => None,
                    Some((ms, k)) => Some((Json::Obj(ms), k)),
                }
            }
        } else if c == 0x5B {  // [
            let j = at_least(skip_ws(s, i + 1), i + 1);
            if j < s.len() && s[j] == 0x5D {  // ]
                Some((Json::Arr(Seq::empty()), j + 1))
            } else {
                match parse_elems(s, j) {
                    None => None,
                    Some((vs, k)) => Some((Json::Arr(vs), k)),
                }
            }
        } else if c == 0x74 {  // t
            if i + 4 <= s.len() && s[i + 1] == 0x72 && s[i + 2] == 0x75 && s[i + 3] == 0x65 {
                Some((Json::Bool(true), i + 4))
            } else {
                None
            }
        } else if c == 0x66 {  // f
            if i + 5 <= s.len() && s[i + 1] == 0x61 && s[i + 2] == 0x6C && s[i + 3] == 0x73
                && s[i + 4] == 0x65 {
                Some((Json::Bool(false), i + 5))
            } else {
                None
            }
        } else if c == 0x6E {  // n
            if i + 4 <= s.len() && s[i + 1] == 0x75 && s[i + 2] == 0x6C && s[i + 3] == 0x6C {
                Some((Json::Null, i + 4))
            } else {
                None
            }
        } else if c == 0x2D || is_digit(c) {
            match num_end(s, i) {
                None => None,
                Some(j) => Some((Json::Num(s.subrange(i, j)), j)),
            }
        } else {
            None
        }
    }
}

/// One or more array elements beginning at `i` (whitespace already
/// skipped, and the array known not to be empty): the elements and the
/// index just after the closing bracket.
pub open spec fn parse_elems(s: Seq<u8>, i: int) -> Option<(Seq<Json>, int)>
    decreases rem(s, i), 1int,
{
    match parse_value(s, i) {
        None => None,
        Some((v, j0)) => {
            let j = at_least(skip_ws(s, j0), i + 1);
            if j < s.len() && s[j] == 0x2C {  // ,
                let k = at_least(skip_ws(s, j + 1), j + 1);
                match parse_elems(s, k) {
                    None => None,
                    Some((rest, end)) => Some((seq![v] + rest, end)),
                }
            } else if j < s.len() && s[j] == 0x5D {  // ]
                Some((seq![v], j + 1))
            } else {
                None
            }
        },
    }
}

/// One or more object members beginning at `i` (whitespace already
/// skipped, and the object known not to be empty): the key/value pairs in
/// textual order and the index just after the closing brace.
pub open spec fn parse_members(s: Seq<u8>, i: int) -> Option<(Seq<(Seq<u8>, Json)>, int)>
    decreases rem(s, i), 1int,
{
    if !(0 <= i < s.len() && s[i] == 0x22) {
        None
    } else {
        match str_body(s, i + 1) {
            None => None,
            Some((key, j0)) => {
                let j = at_least(skip_ws(s, j0), i + 1);
                if !(j < s.len() && s[j] == 0x3A) {  // :
                    None
                } else {
                    let k = at_least(skip_ws(s, j + 1), j + 1);
                    match parse_value(s, k) {
                        None => None,
                        Some((v, m0)) => {
                            let m = at_least(skip_ws(s, m0), k);
                            if m < s.len() && s[m] == 0x2C {  // ,
                                let n = at_least(skip_ws(s, m + 1), m + 1);
                                match parse_members(s, n) {
                                    None => None,
                                    Some((rest, end)) => Some((seq![(key, v)] + rest, end)),
                                }
                            } else if m < s.len() && s[m] == 0x7D {  // }
                                Some((seq![(key, v)], m + 1))
                            } else {
                                None
                            }
                        },
                    }
                }
            },
        }
    }
}

/// The whole document: one value, surrounded by optional whitespace,
/// filling the input exactly.
pub open spec fn parse_document(s: Seq<u8>) -> Option<Json> {
    let i = skip_ws(s, 0);
    match parse_value(s, i) {
        None => None,
        Some((v, j)) => if skip_ws(s, j) == s.len() {
            Some(v)
        } else {
            None
        },
    }
}

/// The value under the first occurrence of `key`, if any.
pub open spec fn lookup(ms: Seq<(Seq<u8>, Json)>, key: Seq<u8>) -> Option<Json>
    decreases ms.len(),
{
    if ms.len() == 0 {
        None
    } else if ms[0].0 == key {
        Some(ms[0].1)
    } else {
        lookup(ms.drop_first(), key)
    }
}

/// The contents of the elements when every element is a string.
pub open spec fn str_items(vs: Seq<Json>) -> Option<Seq<Seq<u8>>>
    decreases vs.len(),
{
    if vs.len() == 0 {
        Some(Seq::empty())
    } else {
        match vs[0] {
            Json::Str(cs) => match str_items(vs.drop_first()) {
                None => None,
                Some(rest) => Some(seq![cs] + rest),
            },
            _ => None,
        }
    }
}

fn is_ws_byte(b: u8) -> (r: bool)
    ensures
        r == is_ws(b),
{
    b == 0x20 || b == 0x09 || b == 0x0a || b == 0x0d
}

fn is_digit_byte(b: u8) -> (r: bool)
    ensures
        r == is_digit(b),
{
    0x30 <= b && b <= 0x39
}

/// The first index at or after `i` that does not hold whitespace.
pub(crate) fn ws_end(s: &[u8], i: usize) -> (j: usize)
    requires
        i <= s@.len(),
    ensures
        i <= j <= s@.len(),
        j as int == skip_ws(s@, i as int),
{
    let mut j = i;
    while j < s.len() && is_ws_byte(*slice_index_get(s, j))
        invariant
            i <= j <= s@.len(),
            skip_ws(s@, i as int) == skip_ws(s@, j as int),
        decreases s@.len() - j,
    {
        j = j + 1;
    }
    j
}

fn hex_val_byte(b: u8) -> (r: Option<u8>)
    ensures
        match hex_val(b) {
            Some(v) => r matches Some(rv) && rv as int == v,
            None => r is None,
        },
{
    if 0x30 <= b && b <= 0x39 {
        Some(b - 0x30)
    } else if 0x61 <= b && b <= 0x66 {
        Some(b - 0x61 + 10)
    } else if 0x41 <= b && b <= 0x46 {
        Some(b - 0x41 + 10)
    } else {
        None
    }
}

/// The value of the four hexadecimal digits at `i`, as the model gives it.
fn hex4_at(s: &[u8], i: usize) -> (r: Option<u32>)
    requires
        i <= s@.len(),
    ensures
        match hex4(s@, i as int) {
            Some(v) => r matches Some(rv) && rv as int == v && rv < 0x10000,
            None => r is None,
        },
{
    if s.len() - i >= 4 {
        let a = hex_val_byte(*slice_index_get(s, i));
        let b = hex_val_byte(*slice_index_get(s, i + 1));
        let c = hex_val_byte(*slice_index_get(s, i + 2));
        let d = hex_val_byte(*slice_index_get(s, i + 3));
        match (a, b, c, d) {
            (Some(a), Some(b), Some(c), Some(d)) => Some(
                (a as u32) * 4096 + (b as u32) * 256 + (c as u32) * 16 + (d as u32),
            ),
            _ => None,
        }
    } else {
        None
    }
}

/// Append the UTF-8 encoding of the code point `cp`.
fn utf8_push(out: &mut Vec<u8>, cp: u32)
    requires
        cp <= 0x10FFFF,
    ensures
        final(out)@ == old(out)@ + utf8_enc(cp as int),
{
    if cp < 0x80 {
        out.push(cp as u8);
        assert(out@ =~= old(out)@ + utf8_enc(cp as int));
    } else if cp < 0x800 {
        out.push((0xC0 + cp / 64) as u8);
        out.push((0x80 + cp % 64) as u8);
        assert(out@ =~= old(out)@ + utf8_enc(cp as int));
    } else if cp < 0x10000 {
        out.push((0xE0 + cp / 4096) as u8);
        out.push((0x80 + (cp / 64) % 64) as u8);
        out.push((0x80 + cp % 64) as u8);
        assert(out@ =~= old(out)@ + utf8_enc(cp as int));
    } else {
        out.push((0xF0 + cp / 262144) as u8);
        out.push((0x80 + (cp / 4096) % 64) as u8);
        out.push((0x80 + (cp / 64) % 64) as u8);
        out.push((0x80 + cp % 64) as u8);
        assert(out@ =~= old(out)@ + utf8_enc(cp as int));
    }
}

/// Decode the escape whose introducing byte stands at `i`, appending the
/// decoded bytes, and return the index just after the escape.
fn unescape_push(s: &[u8], i: usize, out: &mut Vec<u8>) -> (r: Option<usize>)
    requires
        i <= s@.len(),
    ensures
        match unescape_at(s@, i as int) {
            Some((dec, j)) => r matches Some(je) && je as int == j && i < j <= s@.len()
                && final(out)@ == old(out)@ + dec,
            None => r is None,
        },
{
    if i >= s.len() {
        return None;
    }
    let c = *slice_index_get(s, i);
    let simple: Option<u8> = if c == 0x22 {
        Some(0x22)
    } else if c == 0x5C {
        Some(0x5C)
    } else if c == 0x2F {
        Some(0x2F)
    } else if c == 0x62 {
        Some(0x08)
    } else if c == 0x66 {
        Some(0x0C)
    } else if c == 0x6E {
        Some(0x0A)
    } else if c == 0x72 {
        Some(0x0D)
    } else if c == 0x74 {
        Some(0x09)
    } else {
        None
    };
    match simple {
        Some(b) => {
            out.push(b);
            assert(out@ =~= old(out)@ + seq![b]);
            Some(i + 1)
        },
        None => {
            if c == 0x75 {
                match hex4_at(s, i + 1) {
                    None => None,
                    Some(cp) => {
                        if 0xD800 <= cp && cp < 0xDC00 {
                            if s.len() - i >= 7 && *slice_index_get(s, i + 5) == 0x5C
                                && *slice_index_get(s, i + 6) == 0x75 {
                                match hex4_at(s, i + 7) {
                                    None => None,
                                    Some(lo) => {
                                        if 0xDC00 <= lo && lo < 0xE000 {
                                            let code = 0x10000 + (cp - 0xD800) * 1024 + (lo
                                                - 0xDC00);
                                            utf8_push(out, code);
                                            Some(i + 11)
                                        } else {
                                            None
                                        }
                                    },
                                }
                            } else {
                                None
                            }
                        } else if 0xDC00 <= cp && cp < 0xE000 {
                            None
                        } else {
                            utf8_push(out, cp);
                            Some(i + 5)
                        }
                    },
                }
            } else {
                None
            }
        },
    }
}

/// Scan the body of a string from `i`, the index just after the opening
/// quote, appending the decoded contents, and return the index just after
/// the closing quote.
pub(crate) fn str_body_push(s: &[u8], i: usize, out: &mut Vec<u8>) -> (r: Option<usize>)
    requires
        i <= s@.len(),
    ensures
        match str_body(s@, i as int) {
            Some((cs, j)) => r matches Some(je) && je as int == j && i < j <= s@.len()
                && final(out)@ == old(out)@ + cs,
            None => r is None,
        },
    decreases s@.len() - i,
{
    if i >= s.len() {
        return None;
    }
    let c = *slice_index_get(s, i);
    if c == 0x22 {
        assert(out@ =~= old(out)@ + Seq::<u8>::empty());
        Some(i + 1)
    } else if c == 0x5C {
        match unescape_push(s, i + 1, out) {
            None => None,
            Some(j) => {
                proof {
                    let (dec, je) = unescape_at(s@, i as int + 1)->Some_0;
                    assert(at_least(je, i as int + 1) == je);
                }
                match str_body_push(s, j, out) {
                    None => None,
                    Some(end) => {
                        proof {
                            let (dec, je) = unescape_at(s@, i as int + 1)->Some_0;
                            let (rest, e2) = str_body(s@, je)->Some_0;
                            assert((old(out)@ + dec) + rest =~= old(out)@ + (dec + rest));
                        }
                        Some(end)
                    },
                }
            },
        }
    } else if c < 0x20 {
        None
    } else {
        out.push(c);
        assert(out@ =~= old(out)@ + seq![c]);
        match str_body_push(s, i + 1, out) {
            None => None,
            Some(end) => {
                proof {
                    let (rest, e2) = str_body(s@, i as int + 1)->Some_0;
                    assert((old(out)@ + seq![c]) + rest =~= old(out)@ + (seq![c] + rest));
                }
                Some(end)
            },
        }
    }
}

proof fn lemma_digits_end_ge(s: Seq<u8>, i: int)
    ensures
        digits_end(s, i) >= i,
    decreases rem(s, i),
{
    if 0 <= i < s.len() && is_digit(s[i]) {
        lemma_digits_end_ge(s, i + 1);
    }
}

/// The first index at or after `i` that does not hold a decimal digit.
fn digits_run(s: &[u8], i: usize) -> (j: usize)
    requires
        i <= s@.len(),
    ensures
        i <= j <= s@.len(),
        j as int == digits_end(s@, i as int),
{
    let mut j = i;
    while j < s.len() && is_digit_byte(*slice_index_get(s, j))
        invariant
            i <= j <= s@.len(),
            digits_end(s@, i as int) == digits_end(s@, j as int),
        decreases s@.len() - j,
    {
        j = j + 1;
    }
    j
}

/// Scan the number literal beginning at `i` and return the index just
/// after it.
fn num_scan(s: &[u8], i: usize) -> (r: Option<usize>)
    requires
        i <= s@.len(),
    ensures
        match num_end(s@, i as int) {
            Some(j) => r matches Some(je) && je as int == j && i < j <= s@.len(),
            None => r is None,
        },
{
    let j0 = if i < s.len() && *slice_index_get(s, i) == 0x2D {
        i + 1
    } else {
        i
    };
    if !(j0 < s.len() && is_digit_byte(*slice_index_get(s, j0))) {
        return None;
    }
    let j1 = if *slice_index_get(s, j0) == 0x30 {
        j0 + 1
    } else {
        proof {
            lemma_digits_end_ge(s@, j0 as int + 1);
        }
        digits_run(s, j0)
    };
    // fraction part
    let j2 = if j1 < s.len() && *slice_index_get(s, j1) == 0x2E {
        if j1 + 1 < s.len() && is_digit_byte(*slice_index_get(s, j1 + 1)) {
            digits_run(s, j1 + 1)
        } else {
            return None;
        }
    } else {
        j1
    };
    // exponent part
    if j2 < s.len() && (*slice_index_get(s, j2) == 0x65 || *slice_index_get(s, j2) == 0x45) {
        let j3 = if j2 + 1 < s.len() && (*slice_index_get(s, j2 + 1) == 0x2B || *slice_index_get(
            s,
            j2 + 1,
        ) == 0x2D) {
            j2 + 2
        } else {
            j2 + 1
        };
        if j3 < s.len() && is_digit_byte(*slice_index_get(s, j3)) {
            Some(digits_run(s, j3))
        } else {
            None
        }
    } else {
        Some(j2)
    }
}

/// What the scanner keeps of one value: the bridge's fields are strings
/// and arrays of strings, so only those are materialised; every other
/// value is validated and passed over.
pub enum ReadValue {
    Text(Vec<u8>),
    TextList(Vec<Vec<u8>>),
    Other,
}

/// `rv` is a faithful reading of the model value `v`.
pub open spec fn rv_matches(rv: ReadValue, v: Json) -> bool {
    match rv {
        ReadValue::Text(b) => v == Json::Str(b@),
        ReadValue::TextList(l) => match v {
            Json::Arr(vs) => str_items(vs) == Some(l.deep_view()),
            _ => false,
        },
        ReadValue::Other => match v {
            Json::Str(_) => false,
            Json::Arr(vs) => str_items(vs) is None,
            _ => true,
        },
    }
}

/// What the scanner keeps of an array's elements.
enum ElemsRead {
    AllText(Vec<Vec<u8>>),
    Mixed,
}

/// `er` is a faithful reading of the element sequence `vs`.
spec fn elems_match(er: ElemsRead, vs: Seq<Json>) -> bool {
    match er {
        ElemsRead::AllText(l) => str_items(vs) == Some(l.deep_view()),
        ElemsRead::Mixed => str_items(vs) is None,
    }
}

proof fn lemma_str_items_cons(v: Json, rest: Seq<Json>)
    ensures
        str_items(seq![v] + rest) == (match v {
            Json::Str(cs) => match str_items(rest) {
                Some(r) => Some(seq![cs] + r),
                None => None::<Seq<Seq<u8>>>,
            },
            _ => None::<Seq<Seq<u8>>>,
        }),
{
    let s = seq![v] + rest;
    assert(s[0] == v);
    assert(s.drop_first() =~= rest);
}

/// Scan the value beginning at `i` and return what it was, as far as the
/// bridge cares, with the index just after it.
pub(crate) fn read_value(s: &[u8], i: usize) -> (r: Option<(ReadValue, usize)>)
    requires
        i <= s@.len(),
    ensures
        match parse_value(s@, i as int) {
            Some((v, j)) => r matches Some(p) && p.1 as int == j && i < j <= s@.len()
                && rv_matches(p.0, v),
            None => r is None,
        },
    decreases s@.len() - i, 0int,
{
    if i >= s.len() {
        return None;
    }
    let c = *slice_index_get(s, i);
    if c == 0x22 {
        let mut buf: Vec<u8> = Vec::new();
        match str_body_push(s, i + 1, &mut buf) {
            None => None,
            Some(end) => Some((ReadValue::Text(buf), end)),
        }
    } else if c == 0x7B {
        let j = ws_end(s, i + 1);
        if j < s.len() && *slice_index_get(s, j) == 0x7D {
            Some((ReadValue::Other, j + 1))
        } else {
            match scan_members(s, j) {
                None => None,
                Some(end) => Some((ReadValue::Other, end)),
            }
        }
    } else if c == 0x5B {
        let j = ws_end(s, i + 1);
        if j < s.len() && *slice_index_get(s, j) == 0x5D {
            let l: Vec<Vec<u8>> = Vec::new();
            proof {
                assert(l.deep_view() =~= Seq::<Seq<u8>>::empty());
            }
            Some((ReadValue::TextList(l), j + 1))
        } else {
            match read_elems(s, j) {
                None => None,
                Some((er, end)) => match er {
                    ElemsRead::AllText(l) => Some((ReadValue::TextList(l), end)),
                    ElemsRead::Mixed => Some((ReadValue::Other, end)),
                },
            }
        }
    } else if c == 0x74 {  // true
        if s.len() - i >= 4 && *slice_index_get(s, i + 1) == 0x72 && *slice_index_get(s, i + 2)
            == 0x75 && *slice_index_get(s, i + 3) == 0x65 {
            Some((ReadValue::Other, i + 4))
        } else {
            None
        }
    } else if c == 0x66 {  // false
        if s.len() - i >= 5 && *slice_index_get(s, i + 1) == 0x61 && *slice_index_get(s, i + 2)
            == 0x6C && *slice_index_get(s, i + 3) == 0x73 && *slice_index_get(s, i + 4) == 0x65 {
            Some((ReadValue::Other, i + 5))
        } else {
            None
        }
    } else if c == 0x6E {  // null
        if s.len() - i >= 4 && *slice_index_get(s, i + 1) == 0x75 && *slice_index_get(s, i + 2)
            == 0x6C && *slice_index_get(s, i + 3) == 0x6C {
            Some((ReadValue::Other, i + 4))
        } else {
            None
        }
    } else if c == 0x2D || is_digit_byte(c) {
        match num_scan(s, i) {
            None => None,
            Some(j) => Some((ReadValue::Other, j)),
        }
    } else {
        None
    }
}

/// Scan one or more array elements beginning at `i` and return whether
/// every element was a string, with the strings if so, and the index just
/// after the closing bracket.
fn read_elems(s: &[u8], i: usize) -> (r: Option<(ElemsRead, usize)>)
    requires
        i <= s@.len(),
    ensures
        match parse_elems(s@, i as int) {
            Some((vs, j)) => r matches Some(p) && p.1 as int == j && i < j <= s@.len()
                && elems_match(p.0, vs),
            None => r is None,
        },
    decreases s@.len() - i, 1int,
{
    match read_value(s, i) {
        None => None,
        Some((rv, j0)) => {
            let j = ws_end(s, j0);
            if j < s.len() && *slice_index_get(s, j) == 0x2C {
                let k = ws_end(s, j + 1);
                match read_elems(s, k) {
                    None => None,
                    Some((er, end)) => {
                        proof {
                            let (v, _j) = parse_value(s@, i as int)->Some_0;
                            let (vs_rest, _e) = parse_elems(s@, k as int)->Some_0;
                            lemma_str_items_cons(v, vs_rest);
                        }
                        match (rv, er) {
                            (ReadValue::Text(b), ElemsRead::AllText(l)) => {
                                let mut l2 = l;
                                l2.insert(0, b);
                                proof {
                                    let (v, _j) = parse_value(s@, i as int)->Some_0;
                                    let (vs_rest, _e) = parse_elems(s@, k as int)->Some_0;
                                    assert(l2.deep_view() =~~= seq![
                                        v->Str_0,
                                    ] + str_items(vs_rest)->Some_0);
                                }
                                Some((ElemsRead::AllText(l2), end))
                            },
                            (_, _) => Some((ElemsRead::Mixed, end)),
                        }
                    },
                }
            } else if j < s.len() && *slice_index_get(s, j) == 0x5D {
                proof {
                    let (v, _j) = parse_value(s@, i as int)->Some_0;
                    lemma_str_items_cons(v, Seq::<Json>::empty());
                    assert(seq![v] + Seq::<Json>::empty() =~= seq![v]);
                }
                match rv {
                    ReadValue::Text(b) => {
                        let mut l2: Vec<Vec<u8>> = Vec::new();
                        l2.push(b);
                        proof {
                            let (v, _j) = parse_value(s@, i as int)->Some_0;
                            assert(l2.deep_view() =~~= seq![v->Str_0] + Seq::<Seq<u8>>::empty());
                            assert(seq![v->Str_0] + Seq::<Seq<u8>>::empty() =~= seq![v->Str_0]);
                        }
                        Some((ElemsRead::AllText(l2), j + 1))
                    },
                    _ => Some((ElemsRead::Mixed, j + 1)),
                }
            } else {
                None
            }
        },
    }
}

/// Scan one or more object members beginning at `i` and return the index
/// just after the closing brace.
fn scan_members(s: &[u8], i: usize) -> (r: Option<usize>)
    requires
        i <= s@.len(),
    ensures
        match parse_members(s@, i as int) {
            Some((ms, j)) => r matches Some(je) && je as int == j && i < j <= s@.len(),
            None => r is None,
        },
    decreases s@.len() - i, 1int,
{
    if !(i < s.len() && *slice_index_get(s, i) == 0x22) {
        return None;
    }
    let mut key: Vec<u8> = Vec::new();
    match str_body_push(s, i + 1, &mut key) {
        None => None,
        Some(j0) => {
            let j = ws_end(s, j0);
            if !(j < s.len() && *slice_index_get(s, j) == 0x3A) {
                return None;
            }
            let k = ws_end(s, j + 1);
            match read_value(s, k) {
                None => None,
                Some((_rv, m0)) => {
                    let m = ws_end(s, m0);
                    if m < s.len() && *slice_index_get(s, m) == 0x2C {
                        let n = ws_end(s, m + 1);
                        match scan_members(s, n) {
                            None => None,
                            Some(end) => Some(end),
                        }
                    } else if m < s.len() && *slice_index_get(s, m) == 0x7D {
                        Some(m + 1)
                    } else {
                        None
                    }
                },
            }
        },
    }
}

} // verus!
