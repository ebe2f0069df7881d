//! Quoted strings with JSON-style escapes, and hexadecimal numbers.

use vstd::prelude::*;

use crate::parser::scan::{
    char_at, char_is, hex_digit_char, is_hex, lit_at, starts_with, ParseError, Problem, SpecResult,
};
use crate::text::{chars_of, push_char};

verus! {

/// The value of the hexadecimal digit `c`.
pub open spec fn hex_digit_value(c: char) -> int {
    if '0' <= c <= '9' {
        c as int - 48
    } else if 'a' <= c <= 'f' {
        c as int - 87
    } else {
        c as int - 55
    }
}

/// The number that the hexadecimal digits `ds` spell.
pub open spec fn hex_number(ds: Seq<char>) -> int
    decreases ds.len(),
{
    if ds.len() == 0 {
        0
    } else {
        hex_number(ds.drop_last()) * 16 + hex_digit_value(ds.last())
    }
}

/// Every character of `ds` is a hexadecimal digit.
pub open spec fn all_hex(ds: Seq<char>) -> bool {
    forall|i: int| 0 <= i < ds.len() ==> is_hex(#[trigger] ds[i])
}

/// What `u16::from_str_radix(text, 16)` accepts: an optional `+`, then one or
/// more hexadecimal digits whose value fits in 16 bits.
pub open spec fn radix16(text: Seq<char>) -> Option<u16> {
    let ds = if text.len() > 0 && text[0] == '+' {
        text.drop_first()
    } else {
        text
    };
    if ds.len() > 0 && all_hex(ds) && hex_number(ds) <= 0xFFFF {
        Some(hex_number(ds) as u16)
    } else {
        None
    }
}

/// A Unicode scalar value: a code point that is not a surrogate.
pub open spec fn is_scalar(cp: u32) -> bool {
    cp <= 0x10FFFF && !(0xD800 <= cp <= 0xDFFF)
}

/// `char::from_u32`: the character whose code point is `cp`, or `None` when
/// `cp` is not a Unicode scalar value.
#[verifier::external_body]
fn char_from_u32(cp: u32) -> (r: Option<char>)
    ensures
        r == (if is_scalar(cp) {
            Some(cp as char)
        } else {
            None
        }),
{
    char::from_u32(cp)
}

/// Four characters at `p` read as a hexadecimal number by `from_str_radix`.
pub open spec fn spec_u16_hex(s: Seq<char>, p: int) -> SpecResult<u16> {
    if 0 <= p && p + 4 <= s.len() {
        match radix16(s.subrange(p, p + 4)) {
            Some(v) => Ok((v, p + 4)),
            None => Err(ParseError::Backtrack),
        }
    } else {
        Err(ParseError::Backtrack)
    }
}

/// The code point of a `\u` escape after the `\u`: four hexadecimal digits
/// that are not a surrogate, or a high surrogate, `\u` and a low surrogate.
pub open spec fn escape_code(s: Seq<char>, p: int) -> Option<(u32, int)> {
    match spec_u16_hex(s, p) {
        Ok((cp, q)) => if !(0xD800 <= cp < 0xE000) {
            Some((cp as u32, q))
        } else if 0xD800 <= cp < 0xDC00 && starts_with(s, q, seq!['\\', 'u']) {
            match spec_u16_hex(s, q + 2) {
                Ok((low, e)) => if 0xDC00 <= low < 0xE000 {
                    Some(((((cp - 0xD800) * 1024) + (low - 0xDC00) + 0x10000) as u32, e))
                } else {
                    None
                },
                Err(_) => None,
            }
        } else {
            None
        },
        Err(_) => None,
    }
}

/// A `\u` escape after the `\u`, decoded.
pub open spec fn spec_unicode_escape(s: Seq<char>, p: int) -> SpecResult<char> {
    match escape_code(s, p) {
        Some((cp, q)) => if is_scalar(cp) {
            Ok((cp as char, q))
        } else {
            Err(ParseError::Backtrack)
        },
        None => Err(ParseError::Backtrack),
    }
}

/// The character that a one-character escape `\c` stands for.
pub open spec fn simple_escape(c: char) -> Option<char> {
    if c == '"' || c == '\\' || c == '/' {
        Some(c)
    } else if c == 'b' {
        Some('\x08')
    } else if c == 'f' {
        Some('\x0C')
    } else if c == 'n' {
        Some('\n')
    } else if c == 'r' {
        Some('\r')
    } else if c == 't' {
        Some('\t')
    } else {
        None
    }
}

/// One character of a quoted string: any character but `"`, where `\`
/// starts an escape.
pub open spec fn spec_character(s: Seq<char>, p: int) -> SpecResult<char> {
    if !(0 <= p < s.len()) || s[p] == '"' {
        Err(ParseError::Backtrack)
    } else if s[p] != '\\' {
        Ok((s[p], p + 1))
    } else if p + 1 < s.len() && simple_escape(s[p + 1]) is Some {
        Ok((simple_escape(s[p + 1]).unwrap(), p + 2))
    } else if char_at(s, p + 1, 'u') {
        spec_unicode_escape(s, p + 2)
    } else {
        Err(ParseError::Backtrack)
    }
}

/// The characters of a quoted string from `p` on, as far as they go, and
/// the position after them.
pub open spec fn string_chars(s: Seq<char>, p: int) -> (Seq<char>, int)
    decreases s.len() - p,
{
    match spec_character(s, p) {
        Ok((c, q)) => if p < q <= s.len() {
            let (cs, e) = string_chars(s, q);
            (seq![c] + cs, e)
        } else {
            (seq![], p)
        },
        Err(_) => (seq![], p),
    }
}

/// A quoted string: `"`, its characters, and the closing `"`, which is owed
/// once the opening one is read.
pub open spec fn spec_string(s: Seq<char>, p: int) -> SpecResult<Seq<char>> {
    if !char_at(s, p, '"') {
        Err(ParseError::Backtrack)
    } else {
        let (cs, q) = string_chars(s, p + 1);
        if char_at(s, q, '"') {
            Ok((cs, q + 1))
        } else {
            Err(ParseError::Cut(Problem::QuotedString))
        }
    }
}

proof fn lemma_hex_number_bound(ds: Seq<char>)
    requires
        all_hex(ds),
    ensures
        0 <= hex_number(ds),
        ds.len() > 0 ==> hex_number(ds) >= hex_number(ds.drop_last()) * 16,
    decreases ds.len(),
{
    if ds.len() > 0 {
        assert(all_hex(ds.drop_last()));
        lemma_hex_number_bound(ds.drop_last());
        assert(is_hex(ds[ds.len() - 1]));
    }
}

fn hex_digit_number(c: char) -> (r: u32)
    requires
        is_hex(c),
    ensures
        r == hex_digit_value(c),
        r < 16,
{
    if '0' <= c && c <= '9' {
        (c as u32) - 48
    } else if 'a' <= c && c <= 'f' {
        (c as u32) - 87
    } else {
        (c as u32) - 55
    }
}

/// `u16::from_str_radix` on the characters `cs[lo..hi]`.
pub fn radix16_of(cs: &Vec<char>, lo: usize, hi: usize) -> (r: Option<u16>)
    requires
        lo <= hi <= cs@.len(),
    ensures
        r == radix16(cs@.subrange(lo as int, hi as int)),
{
    let ghost text = cs@.subrange(lo as int, hi as int);
    let start = if lo < hi && cs[lo] == '+' {
        lo + 1
    } else {
        lo
    };
    let ghost ds = cs@.subrange(start as int, hi as int);
    assert(ds == (if text.len() > 0 && text[0] == '+' {
        text.drop_first()
    } else {
        text
    }));
    if start == hi {
        return None;
    }
    let mut v: u32 = 0;
    let mut i = start;
    while i < hi
        invariant
            lo <= start <= i <= hi <= cs@.len(),
            ds == cs@.subrange(start as int, hi as int),
            text == cs@.subrange(lo as int, hi as int),
            ds == (if text.len() > 0 && text[0] == '+' {
                text.drop_first()
            } else {
                text
            }),
            all_hex(cs@.subrange(start as int, i as int)),
            v == (if hex_number(cs@.subrange(start as int, i as int)) < 0x10000 {
                hex_number(cs@.subrange(start as int, i as int))
            } else {
                0x10000
            }),
        decreases hi - i,
    {
        if !hex_digit_char(cs[i]) {
            assert(ds[i - start] == cs@[i as int]);
            assert(!all_hex(ds));
            return None;
        }
        let d = hex_digit_number(cs[i]);
        let ghost prefix = cs@.subrange(start as int, i + 1);
        assert(prefix.drop_last() =~= cs@.subrange(start as int, i as int));
        assert(all_hex(prefix));
        proof {
            lemma_hex_number_bound(prefix);
        }
        v = if v >= 0x10000 || v * 16 + d >= 0x10000 {
            0x10000
        } else {
            v * 16 + d
        };
        i = i + 1;
    }
    if v >= 0x10000 {
        None
    } else {
        Some(v as u16)
    }
}

/// Four characters at `p` read as a hexadecimal number by `from_str_radix`.
pub fn u16_hex_at(s: &Vec<char>, p: usize) -> (r: Result<(u16, usize), ParseError>)
    requires
        p <= s@.len(),
    ensures
        match r {
            Ok((v, q)) => spec_u16_hex(s@, p as int) == Ok::<(u16, int), ParseError>((v, q as int)) && q <= s@.len(),
            Err(e) => spec_u16_hex(s@, p as int) == Err::<(u16, int), ParseError>(e),
        },
{
    if s.len() - p < 4 {
        return Err(ParseError::Backtrack);
    }
    match radix16_of(s, p, p + 4) {
        Some(v) => Ok((v, p + 4)),
        None => Err(ParseError::Backtrack),
    }
}

fn escape_code_at(s: &Vec<char>, p: usize) -> (r: Option<(u32, usize)>)
    requires
        p <= s@.len(),
    ensures
        match r {
            Some((cp, q)) => escape_code(s@, p as int) == Some((cp, q as int)) && q <= s@.len(),
            None => escape_code(s@, p as int) is None,
        },
{
    let n = s.len();
    let marker = ['\\', 'u'];
    assert(marker@ == seq!['\\', 'u']);
    match u16_hex_at(s, p) {
        Ok((cp, q)) => {
            if !(0xD800 <= cp && cp < 0xE000) {
                Some((cp as u32, q))
            } else if 0xD800 <= cp && cp < 0xDC00 && lit_at(s, q, &marker) {
                match u16_hex_at(s, q + 2) {
                    Ok((low, e)) => {
                        if 0xDC00 <= low && low < 0xE000 {
                            let code: u32 = (((cp as u32) - 0xD800) * 1024) + ((low as u32) - 0xDC00) + 0x10000;
                            Some((code, e))
                        } else {
                            None
                        }
                    },
                    Err(_) => None,
                }
            } else {
                None
            }
        },
        Err(_) => None,
    }
}

/// A `\u` escape after the `\u`, decoded.
pub fn unicode_escape_at(s: &Vec<char>, p: usize) -> (r: Result<(char, usize), ParseError>)
    requires
        p <= s@.len(),
    ensures
        match r {
            Ok((c, q)) => spec_unicode_escape(s@, p as int) == Ok::<(char, int), ParseError>((c, q as int)) && q <= s@.len(),
            Err(e) => spec_unicode_escape(s@, p as int) == Err::<(char, int), ParseError>(e),
        },
{
    match escape_code_at(s, p) {
        Some((cp, q)) => match char_from_u32(cp) {
            Some(c) => Ok((c, q)),
            None => Err(ParseError::Backtrack),
        },
        None => Err(ParseError::Backtrack),
    }
}

/// One character of a quoted string.
pub fn character_at(s: &Vec<char>, p: usize) -> (r: Result<(char, usize), ParseError>)
    requires
        p <= s@.len(),
    ensures
        match r {
            Ok((c, q)) => spec_character(s@, p as int) == Ok::<(char, int), ParseError>((c, q as int)) && p < q <= s@.len(),
            Err(e) => spec_character(s@, p as int) == Err::<(char, int), ParseError>(e),
        },
{
    if p >= s.len() || s[p] == '"' {
        return Err(ParseError::Backtrack);
    }
    let c = s[p];
    if c != '\\' {
        return Ok((c, p + 1));
    }
    if p + 1 < s.len() {
        let e = s[p + 1];
        let mapped = if e == '"' || e == '\\' || e == '/' {
            Some(e)
        } else if e == 'b' {
            Some('\x08')
        } else if e == 'f' {
            Some('\x0C')
        } else if e == 'n' {
            Some('\n')
        } else if e == 'r' {
            Some('\r')
        } else if e == 't' {
            Some('\t')
        } else {
            None
        };
        assert(mapped == simple_escape(e));
        if let Some(m) = mapped {
            return Ok((m, p + 2));
        }
    }
    if char_is(s, p + 1, 'u') {
        unicode_escape_at(s, p + 2)
    } else {
        Err(ParseError::Backtrack)
    }
}

/// A quoted string.
pub fn string_at(s: &Vec<char>, p: usize) -> (r: Result<(String, usize), ParseError>)
    requires
        p <= s@.len(),
    ensures
        match r {
            Ok((v, q)) => spec_string(s@, p as int) == Ok::<(Seq<char>, int), ParseError>((v@, q as int)) && p < q <= s@.len(),
            Err(e) => spec_string(s@, p as int) == Err::<(Seq<char>, int), ParseError>(e),
        },
{
    let n = s.len();
    if !char_is(s, p, '"') {
        return Err(ParseError::Backtrack);
    }
    let mut acc = String::new();
    let mut i = p + 1;
    loop
        invariant
            p < i <= s@.len(),
            n == s@.len(),
            string_chars(s@, p + 1) == (acc@ + string_chars(s@, i as int).0, string_chars(s@, i as int).1),
        ensures
            p < i <= s@.len(),
            string_chars(s@, p + 1) == (acc@, i as int),
        decreases s@.len() - i,
    {
        match character_at(s, i) {
            Ok((c, q)) => {
                let ghost rest = string_chars(s@, q as int);
                let ghost before = acc@;
                assert(string_chars(s@, i as int) == (seq![c] + rest.0, rest.1));
                push_char(&mut acc, c);
                assert(before + (seq![c] + rest.0) =~= acc@ + rest.0);
                i = q;
            },
            Err(_) => {
                assert(acc@ + Seq::<char>::empty() =~= acc@);
                break;
            },
        }
    }
    if char_is(s, i, '"') {
        Ok((acc, i + 1))
    } else {
        Err(ParseError::Cut(Problem::QuotedString))
    }
}

/// Replaces `input` by what follows its first `q` characters.
pub fn advance(input: &mut &str, q: usize)
    requires
        q <= old(input)@.len(),
    ensures
        final(input)@ == old(input)@.subrange(q as int, old(input)@.len() as int),
{
    let n = input.unicode_len();
    *input = input.substring_char(q, n);
}

/// A quoted string with JSON-style escapes at the start of `input`; on
/// success `input` is left at what follows it.
pub fn string(input: &mut &str) -> (r: Result<String, ParseError>)
    ensures
        match spec_string(old(input)@, 0) {
            Ok((v, q)) => r matches Ok(x) && x@ == v && final(input)@ == old(input)@.subrange(q, old(input)@.len() as int),
            Err(e) => r == Err::<String, ParseError>(e) && final(input)@ == old(input)@,
        },
{
    let s = chars_of(*input);
    match string_at(&s, 0) {
        Ok((v, q)) => {
            advance(input, q);
            Ok(v)
        },
        Err(e) => Err(e),
    }
}

/// One character of a quoted string at the start of `input`.
pub fn character(input: &mut &str) -> (r: Result<char, ParseError>)
    ensures
        match spec_character(old(input)@, 0) {
            Ok((v, q)) => r == Ok::<char, ParseError>(v) && final(input)@ == old(input)@.subrange(q, old(input)@.len() as int),
            Err(e) => r == Err::<char, ParseError>(e) && final(input)@ == old(input)@,
        },
{
    let s = chars_of(*input);
    match character_at(&s, 0) {
        Ok((v, q)) => {
            advance(input, q);
            Ok(v)
        },
        Err(e) => Err(e),
    }
}

/// A `\u` escape, after the `\u`, at the start of `input`.
pub fn unicode_escape(input: &mut &str) -> (r: Result<char, ParseError>)
    ensures
        match spec_unicode_escape(old(input)@, 0) {
            Ok((v, q)) => r == Ok::<char, ParseError>(v) && final(input)@ == old(input)@.subrange(q, old(input)@.len() as int),
            Err(e) => r == Err::<char, ParseError>(e) && final(input)@ == old(input)@,
        },
{
    let s = chars_of(*input);
    match unicode_escape_at(&s, 0) {
        Ok((v, q)) => {
            advance(input, q);
            Ok(v)
        },
        Err(e) => Err(e),
    }
}

/// Four hexadecimal digits at the start of `input`.
pub fn u16_hex(input: &mut &str) -> (r: Result<u16, ParseError>)
    ensures
        match spec_u16_hex(old(input)@, 0) {
            Ok((v, q)) => r == Ok::<u16, ParseError>(v) && final(input)@ == old(input)@.subrange(q, old(input)@.len() as int),
            Err(e) => r == Err::<u16, ParseError>(e) && final(input)@ == old(input)@,
        },
{
    let s = chars_of(*input);
    match u16_hex_at(&s, 0) {
        Ok((v, q)) => {
            advance(input, q);
            Ok(v)
        },
        Err(e) => Err(e),
    }
}

} // verus!
