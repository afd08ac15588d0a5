//! Parsing a color string into RGB.
//!
//! After trimming, an input is taken as hex when it starts with '#' or
//! consists of hex digits only (so a 6-digit all-numeric string is hex, never
//! a decimal triple); anything else is split on commas into three decimal
//! channel values. The spec functions below state the accepted grammar and
//! the exact error for every rejected input.

use vstd::prelude::*;
use crate::color::RGB;

verus! {

/// Why a color string was rejected.
#[derive(Clone, Copy, Debug, PartialEq, Eq, Structural)]
pub enum ParseError {
    /// Wrong overall structure: not 6 hex digits, or not 3 comma-separated parts.
    InvalidFormat,
    /// The red component failed to parse or is out of range.
    InvalidRedComponent,
    /// The green component failed to parse or is out of range.
    InvalidGreenComponent,
    /// The blue component failed to parse or is out of range.
    InvalidBlueComponent,
}

/// The characters `str::trim` removes: the Unicode white-space set.
pub open spec fn is_space(c: char) -> bool {
    let u = c as int;
    u == 0x20 || u == 0x9 || u == 0xa || u == 0xd || u == 0xb || u == 0xc || u == 0x85
        || u == 0xa0 || u == 0x1680 || (0x2000 <= u && u <= 0x200a) || u == 0x2028 || u == 0x2029
        || u == 0x202f || u == 0x205f || u == 0x3000
}

pub open spec fn is_digit(c: char) -> bool {
    '0' <= c && c <= '9'
}

pub open spec fn is_hex_digit(c: char) -> bool {
    is_digit(c) || ('a' <= c && c <= 'f') || ('A' <= c && c <= 'F')
}

pub open spec fn hex_val(c: char) -> int {
    if is_digit(c) {
        c as int - '0' as int
    } else if 'a' <= c && c <= 'f' {
        c as int - 'a' as int + 10
    } else {
        c as int - 'A' as int + 10
    }
}

/// First index in [i, hi) holding a non-space character, hi if none.
pub open spec fn first_non_ws(s: Seq<char>, i: int, hi: int) -> int
    decreases hi - i,
{
    if i >= hi {
        hi
    } else if is_space(s[i]) {
        first_non_ws(s, i + 1, hi)
    } else {
        i
    }
}

/// One past the last non-space index in [lo, j), lo if none.
pub open spec fn last_non_ws(s: Seq<char>, lo: int, j: int) -> int
    decreases j - lo,
{
    if j <= lo {
        lo
    } else if is_space(s[j - 1]) {
        last_non_ws(s, lo, j - 1)
    } else {
        j
    }
}

/// First index in [i, hi) holding a comma, hi if none.
pub open spec fn first_comma(s: Seq<char>, i: int, hi: int) -> int
    decreases hi - i,
{
    if i >= hi {
        hi
    } else if s[i] == ',' {
        i
    } else {
        first_comma(s, i + 1, hi)
    }
}

pub open spec fn all_hex(s: Seq<char>, lo: int, hi: int) -> bool {
    forall|k: int| lo <= k < hi ==> is_hex_digit(s[k])
}

pub open spec fn all_digits(s: Seq<char>, lo: int, hi: int) -> bool {
    forall|k: int| lo <= k < hi ==> is_digit(s[k])
}

/// The number written in decimal at [lo, hi).
pub open spec fn dec_val(s: Seq<char>, lo: int, hi: int) -> int
    decreases hi - lo,
{
    if hi <= lo {
        0
    } else {
        10 * dec_val(s, lo, hi - 1) + (s[hi - 1] as int - '0' as int)
    }
}

/// A two-character hex group at i, with the optional leading '+' that
/// `u8::from_str_radix` accepts; None when it does not parse.
pub open spec fn hex_pair(s: Seq<char>, i: int) -> Option<int> {
    if is_hex_digit(s[i]) && is_hex_digit(s[i + 1]) {
        Some(16 * hex_val(s[i]) + hex_val(s[i + 1]))
    } else if s[i] == '+' && is_hex_digit(s[i + 1]) {
        Some(hex_val(s[i + 1]))
    } else {
        None
    }
}

/// One decimal part in the window [lo, hi): trimmed, an optional leading
/// '+', then at least one digit, value at most 255.
pub open spec fn dec_part(s: Seq<char>, lo: int, hi: int) -> Option<int> {
    let a = first_non_ws(s, lo, hi);
    let b = last_non_ws(s, a, hi);
    let body = if a < b && s[a] == '+' {
        a + 1
    } else {
        a
    };
    if body >= b {
        None
    } else if !all_digits(s, body, b) {
        None
    } else if dec_val(s, body, b) > 255 {
        None
    } else {
        Some(dec_val(s, body, b))
    }
}

/// Parse the trimmed window [a, b) of s.
pub open spec fn parse_window(s: Seq<char>, a: int, b: int) -> Result<RGB, ParseError> {
    let hash = a < b && s[a] == '#';
    if hash || all_hex(s, a, b) {
        let o = if hash {
            a + 1
        } else {
            a
        };
        if b - o != 6 {
            Err(ParseError::InvalidFormat)
        } else {
            match hex_pair(s, o) {
                None => Err(ParseError::InvalidRedComponent),
                Some(rv) => match hex_pair(s, o + 2) {
                    None => Err(ParseError::InvalidGreenComponent),
                    Some(gv) => match hex_pair(s, o + 4) {
                        None => Err(ParseError::InvalidBlueComponent),
                        Some(bv) => Ok(RGB { r: rv as u8, g: gv as u8, b: bv as u8 }),
                    },
                },
            }
        }
    } else {
        let c1 = first_comma(s, a, b);
        let c2 = first_comma(s, c1 + 1, b);
        let c3 = first_comma(s, c2 + 1, b);
        if !(c1 < b && c2 < b && c3 == b) {
            Err(ParseError::InvalidFormat)
        } else {
            match dec_part(s, a, c1) {
                None => Err(ParseError::InvalidRedComponent),
                Some(rv) => match dec_part(s, c1 + 1, c2) {
                    None => Err(ParseError::InvalidGreenComponent),
                    Some(gv) => match dec_part(s, c2 + 1, b) {
                        None => Err(ParseError::InvalidBlueComponent),
                        Some(bv) => Ok(RGB { r: rv as u8, g: gv as u8, b: bv as u8 }),
                    },
                },
            }
        }
    }
}

/// What parsing a whole color string returns: its trimmed window parsed.
pub open spec fn parse_spec(s: Seq<char>) -> Result<RGB, ParseError> {
    let a = first_non_ws(s, 0, s.len() as int);
    parse_window(s, a, last_non_ws(s, a, s.len() as int))
}

// ----- executable scans -----

fn scan_non_ws(v: &Vec<char>, lo: usize, hi: usize) -> (r: usize)
    requires
        lo <= hi <= v@.len(),
    ensures
        r as int == first_non_ws(v@, lo as int, hi as int),
        lo <= r <= hi,
{
    let mut i = lo;
    while i < hi && is_space_exec(v[i])
        invariant
            lo <= i <= hi <= v@.len(),
            first_non_ws(v@, lo as int, hi as int) == first_non_ws(v@, i as int, hi as int),
        decreases hi - i,
    {
        i = i + 1;
    }
    i
}

fn scan_last_non_ws(v: &Vec<char>, lo: usize, hi: usize) -> (r: usize)
    requires
        lo <= hi <= v@.len(),
    ensures
        r as int == last_non_ws(v@, lo as int, hi as int),
        lo <= r <= hi,
{
    let mut j = hi;
    while j > lo && is_space_exec(v[j - 1])
        invariant
            lo <= j <= hi <= v@.len(),
            last_non_ws(v@, lo as int, hi as int) == last_non_ws(v@, lo as int, j as int),
        decreases j,
    {
        j = j - 1;
    }
    j
}

fn scan_comma(v: &Vec<char>, lo: usize, hi: usize) -> (r: usize)
    requires
        lo <= hi <= v@.len(),
    ensures
        r as int == first_comma(v@, lo as int, hi as int),
        lo <= r <= hi,
{
    let mut i = lo;
    while i < hi && v[i] != ','
        invariant
            lo <= i <= hi <= v@.len(),
            first_comma(v@, lo as int, hi as int) == first_comma(v@, i as int, hi as int),
        decreases hi - i,
    {
        i = i + 1;
    }
    i
}

fn is_space_exec(c: char) -> (r: bool)
    ensures
        r == is_space(c),
{
    let u = c as u32;
    u == 0x20 || u == 0x9 || u == 0xa || u == 0xd || u == 0xb || u == 0xc || u == 0x85
        || u == 0xa0 || u == 0x1680 || (0x2000 <= u && u <= 0x200a) || u == 0x2028 || u == 0x2029
        || u == 0x202f || u == 0x205f || u == 0x3000
}

fn is_digit_exec(c: char) -> (r: bool)
    ensures
        r == is_digit(c),
{
    '0' <= c && c <= '9'
}

fn is_hex_digit_exec(c: char) -> (r: bool)
    ensures
        r == is_hex_digit(c),
{
    is_digit_exec(c) || ('a' <= c && c <= 'f') || ('A' <= c && c <= 'F')
}

fn hex_val_exec(c: char) -> (r: u8)
    requires
        is_hex_digit(c),
    ensures
        r as int == hex_val(c),
        r < 16,
{
    let u = c as u32;
    if is_digit_exec(c) {
        (u - '0' as u32) as u8
    } else if 'a' <= c && c <= 'f' {
        (u - 'a' as u32 + 10) as u8
    } else {
        (u - 'A' as u32 + 10) as u8
    }
}

fn hex_pair_exec(v: &Vec<char>, i: usize) -> (r: Option<u8>)
    requires
        i + 2 <= v@.len(),
    ensures
        match r {
            Some(x) => hex_pair(v@, i as int) == Some(x as int),
            None => hex_pair(v@, i as int).is_none(),
        },
{
    let n = v.len();
    assert(i + 2 <= n);
    let c0 = v[i];
    let c1 = v[i + 1];
    if is_hex_digit_exec(c0) && is_hex_digit_exec(c1) {
        Some(16 * hex_val_exec(c0) + hex_val_exec(c1))
    } else if c0 == '+' && is_hex_digit_exec(c1) {
        Some(hex_val_exec(c1))
    } else {
        None
    }
}

fn dec_part_exec(v: &Vec<char>, lo: usize, hi: usize) -> (r: Option<u8>)
    requires
        lo <= hi <= v@.len(),
    ensures
        match r {
            Some(x) => dec_part(v@, lo as int, hi as int) == Some(x as int),
            None => dec_part(v@, lo as int, hi as int).is_none(),
        },
{
    let a = scan_non_ws(v, lo, hi);
    let b = scan_last_non_ws(v, a, hi);
    let body: usize = if a < b && v[a] == '+' {
        a + 1
    } else {
        a
    };
    if body >= b {
        return None;
    }
    let mut k = body;
    let mut acc: u32 = 0;
    while k < b
        invariant
            lo <= hi <= v@.len(),
            body <= k <= b <= v@.len(),
            a as int == first_non_ws(v@, lo as int, hi as int),
            b as int == last_non_ws(v@, a as int, hi as int),
            body as int == if a < b && v@[a as int] == '+' {
                a as int + 1
            } else {
                a as int
            },
            body < b,
            all_digits(v@, body as int, k as int),
            acc <= 255 ==> acc as int == dec_val(v@, body as int, k as int),
            acc > 255 ==> acc == 256 && dec_val(v@, body as int, k as int) > 255,
        decreases b - k,
    {
        let c = v[k];
        if !is_digit_exec(c) {
            proof {
                assert(!is_digit(v@[k as int]));
                assert(!all_digits(v@, body as int, b as int));
                assert(a as int == first_non_ws(v@, lo as int, hi as int));
                assert(b as int == last_non_ws(v@, first_non_ws(v@, lo as int, hi as int),
                    hi as int));
                assert(dec_part(v@, lo as int, hi as int).is_none());
            }
            return None;
        }
        let d: u32 = c as u32 - '0' as u32;
        proof {
            if acc > 255 {
                assert(10 * dec_val(v@, body as int, k as int) + (v@[k as int] as int
                    - '0' as int) > 255);
            }
        }
        acc = if acc > 255 {
            256
        } else if 10 * acc + d > 255 {
            256
        } else {
            10 * acc + d
        };
        k = k + 1;
    }
    if acc > 255 {
        return None;
    }
    Some(acc as u8)
}

impl RGB {
    /// Parse a color string: optional surrounding whitespace, then either
    /// `#RRGGBB`, bare `RRGGBB` (anything made of hex digits only counts as
    /// hex), or `r,g,b` in decimal, each channel in [0, 255].
    pub fn from_str(s: &str) -> (result: Result<RGB, ParseError>)
        ensures
            result == parse_spec(s@),
    {
        let n = s.unicode_len();
        let mut v: Vec<char> = Vec::new();
        let mut k: usize = 0;
        while k < n
            invariant
                k <= n,
                n == s@.len(),
                v@ =~= s@.subrange(0, k as int),
            decreases n - k,
        {
            v.push(s.get_char(k));
            k = k + 1;
        }
        assert(v@ =~= s@);
        let a = scan_non_ws(&v, 0, n);
        let b = scan_last_non_ws(&v, a, n);
        let hash = a < b && v[a] == '#';
        let mut hexall = true;
        let mut i = a;
        while i < b
            invariant
                a <= i <= b <= v@.len(),
                hexall ==> all_hex(v@, a as int, i as int),
                !hexall ==> !all_hex(v@, a as int, b as int),
            decreases b - i,
        {
            if !is_hex_digit_exec(v[i]) {
                assert(!is_hex_digit(v@[i as int]));
                hexall = false;
                i = b;
            } else {
                i = i + 1;
            }
        }
        if hash || hexall {
            let o: usize = if hash {
                a + 1
            } else {
                a
            };
            if b - o != 6 {
                return Err(ParseError::InvalidFormat);
            }
            match hex_pair_exec(&v, o) {
                None => Err(ParseError::InvalidRedComponent),
                Some(rv) => match hex_pair_exec(&v, o + 2) {
                    None => Err(ParseError::InvalidGreenComponent),
                    Some(gv) => match hex_pair_exec(&v, o + 4) {
                        None => Err(ParseError::InvalidBlueComponent),
                        Some(bv) => Ok(RGB { r: rv, g: gv, b: bv }),
                    },
                },
            }
        } else {
            let c1 = scan_comma(&v, a, b);
            let c2 = scan_comma(&v, if c1 < b {
                c1 + 1
            } else {
                b
            }, b);
            let c3 = scan_comma(&v, if c2 < b {
                c2 + 1
            } else {
                b
            }, b);
            proof {
                if c1 >= b {
                    assert(first_comma(v@, c1 as int + 1, b as int) == b);
                }
                if c2 >= b {
                    assert(first_comma(v@, c2 as int + 1, b as int) == b);
                }
            }
            if !(c1 < b && c2 < b && c3 == b) {
                return Err(ParseError::InvalidFormat);
            }
            match dec_part_exec(&v, a, c1) {
                None => Err(ParseError::InvalidRedComponent),
                Some(rv) => match dec_part_exec(&v, c1 + 1, c2) {
                    None => Err(ParseError::InvalidGreenComponent),
                    Some(gv) => match dec_part_exec(&v, c2 + 1, b) {
                        None => Err(ParseError::InvalidBlueComponent),
                        Some(bv) => Ok(RGB { r: rv, g: gv, b: bv }),
                    },
                },
            }
        }
    }
}

} // verus!
