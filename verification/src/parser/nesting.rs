//! How the text that the grammar reads looks to the scan for matching
//! parentheses: every part that the grammar reads leaves the scan where it
//! found it, outside any string and at the same depth. So the parenthesis
//! that opens a text is closed by the one after a selector.

use vstd::prelude::*;

use crate::parser::predicate::{
    hex_run, key_at, key_text, predicate_from, spec_attr_rest, spec_attribute, spec_attribute_key,
    spec_attribute_value, spec_attributes, spec_hex_value, spec_node_type, spec_predicate, AttrKey,
};
use crate::parser::scan::{
    char_at, digits_end, hex_end, is_digit, is_hex, is_space, skip_hex_prefix, skip_spaces,
    starts_with, ParseError,
};
use crate::parser::selector::{spec_chain_from, spec_combinator, spec_element, spec_selector};
use crate::parser::util::{
    all_hex, escape_code, radix16, simple_escape, spec_character, spec_string, spec_u16_hex,
    spec_unicode_escape, string_chars,
};
use crate::selector::close_scan;

verus! {

/// A character that the scan for parentheses passes over outside strings.
pub open spec fn plain(c: char) -> bool {
    c != '(' && c != ')' && c != '"' && c != '\\'
}

/// Every character of `s` is plain.
pub open spec fn all_plain(s: Seq<char>) -> bool
    decreases s.len(),
{
    s.len() == 0 || (plain(s[0]) && all_plain(s.drop_first()))
}

/// `x` stands in `w` from position `off` on.
pub open spec fn embeds(w: Seq<char>, x: Seq<char>, off: int) -> bool {
    &&& 0 <= off
    &&& off + x.len() <= w.len()
    &&& forall|i: int| 0 <= i < x.len() ==> w[off + i] == #[trigger] x[i]
}

/// The scan of `w` from the place of position `p` of the embedded text.
pub open spec fn scan_at(w: Seq<char>, off: int, p: int, depth: int, in_string: bool) -> Option<int> {
    close_scan(w, off + p, depth, in_string, false)
}

/// Outside strings and with at least one parenthesis open, the scan finds
/// the same from `p` as from `q`.
pub open spec fn neutral(w: Seq<char>, off: int, p: int, q: int) -> bool {
    forall|d: int| d >= 1 ==> #[trigger] scan_at(w, off, p, d, false) == scan_at(w, off, q, d, false)
}

/// Inside a string, the scan finds the same from `p` as from `q`.
pub open spec fn neutral_in_string(w: Seq<char>, off: int, p: int, q: int) -> bool {
    forall|d: int| #[trigger] scan_at(w, off, p, d, true) == scan_at(w, off, q, d, true)
}

proof fn lemma_all_plain(s: Seq<char>)
    requires
        all_plain(s),
    ensures
        forall|i: int| 0 <= i < s.len() ==> plain(#[trigger] s[i]),
    decreases s.len(),
{
    if s.len() > 0 {
        lemma_all_plain(s.drop_first());
        assert forall|i: int| 0 <= i < s.len() implies plain(#[trigger] s[i]) by {
            if i > 0 {
                assert(s[i] == s.drop_first()[i - 1]);
            }
        }
    }
}

proof fn lemma_neutral_trans(w: Seq<char>, off: int, p: int, q: int, r: int)
    requires
        neutral(w, off, p, q),
        neutral(w, off, q, r),
    ensures
        neutral(w, off, p, r),
{
    assert forall|d: int| d >= 1 implies #[trigger] scan_at(w, off, p, d, false) == scan_at(w, off, r, d, false) by {
        assert(scan_at(w, off, p, d, false) == scan_at(w, off, q, d, false));
        assert(scan_at(w, off, q, d, false) == scan_at(w, off, r, d, false));
    }
}

proof fn lemma_neutral_in_string_trans(w: Seq<char>, off: int, p: int, q: int, r: int)
    requires
        neutral_in_string(w, off, p, q),
        neutral_in_string(w, off, q, r),
    ensures
        neutral_in_string(w, off, p, r),
{
    assert forall|d: int| #[trigger] scan_at(w, off, p, d, true) == scan_at(w, off, r, d, true) by {
        assert(scan_at(w, off, p, d, true) == scan_at(w, off, q, d, true));
        assert(scan_at(w, off, q, d, true) == scan_at(w, off, r, d, true));
    }
}

/// A run of plain characters leaves the scan where it found it.
proof fn lemma_plain(w: Seq<char>, x: Seq<char>, off: int, p: int, q: int)
    requires
        embeds(w, x, off),
        0 <= p <= q <= x.len(),
        forall|i: int| p <= i < q ==> plain(#[trigger] x[i]),
    ensures
        neutral(w, off, p, q),
    decreases q - p,
{
    if p < q {
        lemma_plain(w, x, off, p + 1, q);
        assert forall|d: int| d >= 1 implies #[trigger] scan_at(w, off, p, d, false) == scan_at(w, off, q, d, false) by {
            assert(w[off + p] == x[p]);
            assert(plain(x[p]));
            assert(scan_at(w, off, p + 1, d, false) == scan_at(w, off, q, d, false));
            assert(close_scan(w, off + p, d, false, false) == close_scan(w, off + p + 1, d, false, false));
        }
    }
}

/// Inside a string, a run of characters that are neither quotes nor
/// backslashes leaves the scan where it found it.
proof fn lemma_plain_in_string(w: Seq<char>, x: Seq<char>, off: int, p: int, q: int)
    requires
        embeds(w, x, off),
        0 <= p <= q <= x.len(),
        forall|i: int| p <= i < q ==> #[trigger] x[i] != '"' && x[i] != '\\',
    ensures
        neutral_in_string(w, off, p, q),
    decreases q - p,
{
    if p < q {
        lemma_plain_in_string(w, x, off, p + 1, q);
        assert forall|d: int| #[trigger] scan_at(w, off, p, d, true) == scan_at(w, off, q, d, true) by {
            assert(w[off + p] == x[p]);
            assert(x[p] != '"' && x[p] != '\\');
            assert(scan_at(w, off, p + 1, d, true) == scan_at(w, off, q, d, true));
            assert(close_scan(w, off + p, d, true, false) == close_scan(w, off + p + 1, d, true, false));
        }
    }
}

/// Inside a string, a backslash and the character after it leave the scan
/// where it found it.
proof fn lemma_escape_pair(w: Seq<char>, x: Seq<char>, off: int, p: int)
    requires
        embeds(w, x, off),
        0 <= p,
        p + 2 <= x.len(),
        x[p] == '\\',
    ensures
        neutral_in_string(w, off, p, p + 2),
{
    assert forall|d: int| #[trigger] scan_at(w, off, p, d, true) == scan_at(w, off, p + 2, d, true) by {
        assert(w[off + p] == x[p]);
        assert(close_scan(w, off + p, d, true, false) == close_scan(w, off + p + 1, d, true, true));
        assert(close_scan(w, off + p + 1, d, true, true) == close_scan(w, off + p + 2, d, true, false));
    }
}

/// Spaces leave the scan where it found it.
proof fn lemma_spaces(w: Seq<char>, x: Seq<char>, off: int, p: int)
    requires
        embeds(w, x, off),
        0 <= p <= x.len(),
    ensures
        p <= skip_spaces(x, p) <= x.len(),
        neutral(w, off, p, skip_spaces(x, p)),
    decreases x.len() - p,
{
    if p < x.len() && is_space(x[p]) {
        lemma_spaces(w, x, off, p + 1);
        lemma_plain(w, x, off, p, p + 1);
        lemma_neutral_trans(w, off, p, p + 1, skip_spaces(x, p));
    }
}

/// Decimal digits leave the scan where it found it.
proof fn lemma_digits(w: Seq<char>, x: Seq<char>, off: int, p: int)
    requires
        embeds(w, x, off),
        0 <= p <= x.len(),
    ensures
        p <= digits_end(x, p) <= x.len(),
        neutral(w, off, p, digits_end(x, p)),
    decreases x.len() - p,
{
    if p < x.len() && is_digit(x[p]) {
        lemma_digits(w, x, off, p + 1);
        lemma_plain(w, x, off, p, p + 1);
        lemma_neutral_trans(w, off, p, p + 1, digits_end(x, p));
    }
}

/// Hexadecimal digits leave the scan where it found it.
proof fn lemma_hex_digits(w: Seq<char>, x: Seq<char>, off: int, p: int, max: int)
    requires
        embeds(w, x, off),
        0 <= p <= x.len(),
    ensures
        p <= hex_end(x, p, max) <= x.len(),
        neutral(w, off, p, hex_end(x, p, max)),
    decreases max,
{
    if max > 0 && p < x.len() && is_hex(x[p]) {
        lemma_hex_digits(w, x, off, p + 1, max - 1);
        lemma_plain(w, x, off, p, p + 1);
        lemma_neutral_trans(w, off, p, p + 1, hex_end(x, p, max));
    }
}

/// The literals that the grammar reads are plain.
proof fn lemma_literals_plain()
    ensures
        all_plain(seq!['0', 'x']),
        all_plain(seq!['%', '>']),
        all_plain(seq!['h', 'u', 'b']),
        all_plain(seq!['d', 'e', 'v', 'i', 'c', 'e']),
        forall|k: AttrKey| #[trigger] all_plain(key_text(k)),
{
    assert forall|s: Seq<char>| (forall|i: int| 0 <= i < s.len() ==> plain(#[trigger] s[i])) implies #[trigger] all_plain(s) by {
        lemma_plain_all(s);
    }
    assert forall|k: AttrKey| #[trigger] all_plain(key_text(k)) by {
        let t = key_text(k);
        assert forall|i: int| 0 <= i < t.len() implies plain(#[trigger] t[i]) by {}
    }
    let a = seq!['0', 'x'];
    assert forall|i: int| 0 <= i < a.len() implies plain(#[trigger] a[i]) by {}
    let b = seq!['%', '>'];
    assert forall|i: int| 0 <= i < b.len() implies plain(#[trigger] b[i]) by {}
    let c = seq!['h', 'u', 'b'];
    assert forall|i: int| 0 <= i < c.len() implies plain(#[trigger] c[i]) by {}
    let e = seq!['d', 'e', 'v', 'i', 'c', 'e'];
    assert forall|i: int| 0 <= i < e.len() implies plain(#[trigger] e[i]) by {}
}

proof fn lemma_plain_all(s: Seq<char>)
    requires
        forall|i: int| 0 <= i < s.len() ==> plain(#[trigger] s[i]),
    ensures
        all_plain(s),
    decreases s.len(),
{
    if s.len() > 0 {
        assert(plain(s[0]));
        assert forall|i: int| 0 <= i < s.drop_first().len() implies plain(#[trigger] s.drop_first()[i]) by {
            assert(s.drop_first()[i] == s[i + 1]);
        }
        lemma_plain_all(s.drop_first());
    }
}

/// Plain characters that stand at `p` leave the scan where it found it.
proof fn lemma_literal(w: Seq<char>, x: Seq<char>, off: int, p: int, lit: Seq<char>)
    requires
        embeds(w, x, off),
        starts_with(x, p, lit),
        all_plain(lit),
    ensures
        neutral(w, off, p, p + lit.len()),
{
    lemma_all_plain(lit);
    assert forall|i: int| p <= i < p + lit.len() implies plain(#[trigger] x[i]) by {
        assert(x.subrange(p, p + lit.len())[i - p] == x[i]);
        assert(plain(lit[i - p]));
    }
    lemma_plain(w, x, off, p, p + lit.len());
}

/// One plain character at `p` leaves the scan where it found it.
proof fn lemma_one(w: Seq<char>, x: Seq<char>, off: int, p: int)
    requires
        embeds(w, x, off),
        0 <= p < x.len(),
        plain(x[p]),
    ensures
        neutral(w, off, p, p + 1),
{
    lemma_plain(w, x, off, p, p + 1);
}

/// A number of one to four hexadecimal digits after an optional `0x`
/// leaves the scan where it found it.
proof fn lemma_hex_run(w: Seq<char>, x: Seq<char>, off: int, p: int)
    requires
        embeds(w, x, off),
        0 <= p <= x.len(),
    ensures
        p <= hex_run(x, p).0 <= hex_run(x, p).1 <= x.len(),
        neutral(w, off, p, hex_run(x, p).1),
{
    let q = skip_hex_prefix(x, p);
    if starts_with(x, p, seq!['0', 'x']) {
        lemma_literals_plain();
        lemma_literal(w, x, off, p, seq!['0', 'x']);
    }
    lemma_hex_digits(w, x, off, q, 4);
    lemma_neutral_trans(w, off, p, q, hex_end(x, q, 4));
}

/// Four characters read as a hexadecimal number leave the scan inside a
/// string where it found it.
proof fn lemma_hex4(w: Seq<char>, x: Seq<char>, off: int, q: int)
    requires
        embeds(w, x, off),
        0 <= q,
        spec_u16_hex(x, q) is Ok,
    ensures
        q + 4 <= x.len(),
        neutral_in_string(w, off, q, q + 4),
{
    let t = x.subrange(q, q + 4);
    let ds = if t.len() > 0 && t[0] == '+' {
        t.drop_first()
    } else {
        t
    };
    assert(radix16(t) is Some);
    assert(all_hex(ds));
    assert forall|i: int| q <= i < q + 4 implies #[trigger] x[i] != '"' && x[i] != '\\' by {
        assert(t[i - q] == x[i]);
        if t[0] == '+' {
            if i > q {
                assert(ds[i - q - 1] == t[i - q]);
                assert(is_hex(ds[i - q - 1]));
            }
        } else {
            assert(ds[i - q] == t[i - q]);
            assert(is_hex(ds[i - q]));
        }
    }
    lemma_plain_in_string(w, x, off, q, q + 4);
}

/// The code of a `\u` escape, after the `\u`, leaves the scan inside a
/// string where it found it.
proof fn lemma_escape_code(w: Seq<char>, x: Seq<char>, off: int, p: int)
    requires
        embeds(w, x, off),
        0 <= p,
        escape_code(x, p) is Some,
    ensures
        p < escape_code(x, p).unwrap().1 <= x.len(),
        neutral_in_string(w, off, p, escape_code(x, p).unwrap().1),
{
    lemma_hex4(w, x, off, p);
    let (cp, q) = spec_u16_hex(x, p)->Ok_0;
    assert(q == p + 4);
    if 0xD800 <= cp < 0xE000 {
        assert(starts_with(x, q, seq!['\\', 'u']));
        assert(x.subrange(q, q + 2)[0] == x[q]);
        lemma_escape_pair(w, x, off, q);
        lemma_hex4(w, x, off, q + 2);
        lemma_neutral_in_string_trans(w, off, p, q, q + 2);
        lemma_neutral_in_string_trans(w, off, p, q + 2, q + 6);
    }
}

/// One character of a string leaves the scan inside the string where it
/// found it.
proof fn lemma_character(w: Seq<char>, x: Seq<char>, off: int, p: int)
    requires
        embeds(w, x, off),
        spec_character(x, p) is Ok,
    ensures
        p < spec_character(x, p)->Ok_0.1 <= x.len(),
        neutral_in_string(w, off, p, spec_character(x, p)->Ok_0.1),
{
    if x[p] != '\\' {
        lemma_plain_in_string(w, x, off, p, p + 1);
    } else if p + 1 < x.len() && simple_escape(x[p + 1]) is Some {
        lemma_escape_pair(w, x, off, p);
    } else {
        assert(char_at(x, p + 1, 'u'));
        assert(spec_unicode_escape(x, p + 2) is Ok);
        assert(escape_code(x, p + 2) is Some);
        lemma_escape_pair(w, x, off, p);
        lemma_escape_code(w, x, off, p + 2);
        lemma_neutral_in_string_trans(w, off, p, p + 2, escape_code(x, p + 2).unwrap().1);
    }
}

/// The characters of a string leave the scan inside the string where it
/// found them.
proof fn lemma_string_chars(w: Seq<char>, x: Seq<char>, off: int, p: int)
    requires
        embeds(w, x, off),
        0 <= p <= x.len(),
    ensures
        p <= string_chars(x, p).1 <= x.len(),
        neutral_in_string(w, off, p, string_chars(x, p).1),
    decreases x.len() - p,
{
    if let Ok((c, q)) = spec_character(x, p) {
        if p < q <= x.len() {
            lemma_character(w, x, off, p);
            lemma_string_chars(w, x, off, q);
            lemma_neutral_in_string_trans(w, off, p, q, string_chars(x, q).1);
        }
    }
}

/// A quoted string leaves the scan where it found it.
proof fn lemma_string(w: Seq<char>, x: Seq<char>, off: int, p: int)
    requires
        embeds(w, x, off),
        0 <= p <= x.len(),
    ensures
        spec_string(x, p) matches Ok((_, q)) ==> p <= q <= x.len() && neutral(w, off, p, q),
{
    if let Ok((v, q)) = spec_string(x, p) {
        assert(char_at(x, p, '"'));
        lemma_string_chars(w, x, off, p + 1);
        let e = string_chars(x, p + 1).1;
        assert(char_at(x, e, '"'));
        assert(q == e + 1);
        assert forall|d: int| d >= 1 implies #[trigger] scan_at(w, off, p, d, false) == scan_at(w, off, q, d, false) by {
            assert(w[off + p] == x[p]);
            assert(w[off + e] == x[e]);
            assert(close_scan(w, off + p, d, false, false) == close_scan(w, off + p + 1, d, true, false));
            assert(scan_at(w, off, p + 1, d, true) == scan_at(w, off, e, d, true));
            assert(close_scan(w, off + e, d, true, false) == close_scan(w, off + e + 1, d, false, false));
        }
    }
}

/// An attribute's value leaves the scan where it found it.
proof fn lemma_attribute_value(w: Seq<char>, x: Seq<char>, off: int, k: AttrKey, p: int)
    requires
        embeds(w, x, off),
        0 <= p <= x.len(),
    ensures
        spec_attribute_value(x, k, p) matches Ok((_, q)) ==> p <= q <= x.len() && neutral(w, off, p, q),
{
    if let Ok((v, q)) = spec_attribute_value(x, k, p) {
        match k {
            AttrKey::Port => {
                lemma_digits(w, x, off, p);
            },
            AttrKey::Id => {
                lemma_hex_run(w, x, off, p);
                let e = hex_run(x, p).1;
                assert(char_at(x, e, ':'));
                lemma_one(w, x, off, e);
                lemma_hex_run(w, x, off, e + 1);
                lemma_neutral_trans(w, off, p, e, e + 1);
                lemma_neutral_trans(w, off, p, e + 1, hex_run(x, e + 1).1);
            },
            AttrKey::Vid | AttrKey::Pid => {
                lemma_hex_run(w, x, off, p);
            },
            _ => {
                lemma_string(w, x, off, p);
            },
        }
    }
}

/// One attribute leaves the scan where it found it.
proof fn lemma_attribute(w: Seq<char>, x: Seq<char>, off: int, p: int)
    requires
        embeds(w, x, off),
        0 <= p <= x.len(),
    ensures
        spec_attribute(x, p) matches Ok((_, q)) ==> p <= q <= x.len() && neutral(w, off, p, q),
{
    if let Ok((kv, q)) = spec_attribute(x, p) {
        lemma_spaces(w, x, off, p);
        let a = skip_spaces(x, p);
        let (k, b) = spec_attribute_key(x, a)->Ok_0;
        assert(key_at(x, a, k));
        assert(b == a + key_text(k).len());
        lemma_literals_plain();
        lemma_literal(w, x, off, a, key_text(k));
        lemma_spaces(w, x, off, b);
        let c = skip_spaces(x, b);
        assert(char_at(x, c, '='));
        lemma_one(w, x, off, c);
        lemma_spaces(w, x, off, c + 1);
        let d = skip_spaces(x, c + 1);
        lemma_attribute_value(w, x, off, k, d);
        lemma_neutral_trans(w, off, p, a, b);
        lemma_neutral_trans(w, off, p, b, c);
        lemma_neutral_trans(w, off, p, c, c + 1);
        lemma_neutral_trans(w, off, p, c + 1, d);
        lemma_neutral_trans(w, off, p, d, q);
    }
}

/// The attributes after the first leave the scan where they found it.
proof fn lemma_attr_rest(w: Seq<char>, x: Seq<char>, off: int, p: int)
    requires
        embeds(w, x, off),
        0 <= p <= x.len(),
    ensures
        spec_attr_rest(x, p) matches Ok((_, q)) ==> p <= q <= x.len() && neutral(w, off, p, q),
    decreases x.len() - p,
{
    lemma_spaces(w, x, off, p);
    let a = skip_spaces(x, p);
    if char_at(x, a, ',') {
        lemma_one(w, x, off, a);
        lemma_spaces(w, x, off, a + 1);
        let b = skip_spaces(x, a + 1);
        lemma_attribute(w, x, off, b);
        if let Ok((kv, e)) = spec_attribute(x, b) {
            if p < e <= x.len() {
                lemma_attr_rest(w, x, off, e);
                if let Ok((rest, f)) = spec_attr_rest(x, e) {
                    lemma_neutral_trans(w, off, p, a, a + 1);
                    lemma_neutral_trans(w, off, p, a + 1, b);
                    lemma_neutral_trans(w, off, p, b, e);
                    lemma_neutral_trans(w, off, p, e, f);
                }
            }
        }
    }
}

/// A bracketed attribute list leaves the scan where it found it.
proof fn lemma_attributes(w: Seq<char>, x: Seq<char>, off: int, p: int)
    requires
        embeds(w, x, off),
        0 <= p <= x.len(),
    ensures
        spec_attributes(x, p) matches Ok((_, q)) ==> p <= q <= x.len() && neutral(w, off, p, q),
{
    if let Ok((list, q)) = spec_attributes(x, p) {
        lemma_spaces(w, x, off, p);
        let a = skip_spaces(x, p);
        lemma_one(w, x, off, a);
        lemma_spaces(w, x, off, a + 1);
        let b = skip_spaces(x, a + 1);
        lemma_attribute(w, x, off, b);
        let e = spec_attribute(x, b)->Ok_0.1;
        lemma_attr_rest(w, x, off, e);
        let f = spec_attr_rest(x, e)->Ok_0.1;
        lemma_spaces(w, x, off, f);
        let c = skip_spaces(x, f);
        lemma_one(w, x, off, c);
        lemma_neutral_trans(w, off, p, a, a + 1);
        lemma_neutral_trans(w, off, p, a + 1, b);
        lemma_neutral_trans(w, off, p, b, e);
        lemma_neutral_trans(w, off, p, e, f);
        lemma_neutral_trans(w, off, p, f, c);
        lemma_neutral_trans(w, off, p, c, c + 1);
    }
}

/// A predicate leaves the scan where it found it.
proof fn lemma_predicate(w: Seq<char>, x: Seq<char>, off: int, p: int)
    requires
        embeds(w, x, off),
        0 <= p <= x.len(),
    ensures
        spec_predicate(x, p) matches Ok((_, q)) ==> p <= q <= x.len() && neutral(w, off, p, q),
{
    if let Ok((ps, q)) = spec_predicate(x, p) {
        lemma_spaces(w, x, off, p);
        let a = skip_spaces(x, p);
        let subject = char_at(x, a, '!');
        let a1 = if subject {
            a + 1
        } else {
            a
        };
        if subject {
            lemma_one(w, x, off, a);
        }
        lemma_spaces(w, x, off, a1);
        let b = skip_spaces(x, a1);
        let (node_type, c) = spec_node_type(x, b)->Ok_0;
        lemma_literals_plain();
        if char_at(x, b, '*') {
            lemma_one(w, x, off, b);
        } else if starts_with(x, b, seq!['h', 'u', 'b']) {
            lemma_literal(w, x, off, b, seq!['h', 'u', 'b']);
        } else {
            lemma_literal(w, x, off, b, seq!['d', 'e', 'v', 'i', 'c', 'e']);
        }
        lemma_neutral_trans(w, off, p, a, a1);
        lemma_neutral_trans(w, off, p, a1, b);
        lemma_neutral_trans(w, off, p, b, c);
        if char_at(x, skip_spaces(x, c), '[') {
            lemma_attributes(w, x, off, c);
            lemma_neutral_trans(w, off, p, c, q);
        }
    }
}

/// A combinator leaves the scan where it found it.
proof fn lemma_combinator(w: Seq<char>, x: Seq<char>, off: int, p: int)
    requires
        embeds(w, x, off),
        0 <= p <= x.len(),
    ensures
        spec_combinator(x, p) matches Ok((_, q)) ==> p <= q <= x.len() && neutral(w, off, p, q),
{
    if let Ok((c, q)) = spec_combinator(x, p) {
        lemma_spaces(w, x, off, p);
        let a = skip_spaces(x, p);
        lemma_literals_plain();
        if char_at(x, a, '>') || (!starts_with(x, a, seq!['%', '>']) && char_at(x, a, '%')) {
            lemma_one(w, x, off, a);
            lemma_neutral_trans(w, off, p, a, a + 1);
        } else if starts_with(x, a, seq!['%', '>']) {
            lemma_literal(w, x, off, a, seq!['%', '>']);
            lemma_neutral_trans(w, off, p, a, a + 2);
        }
    }
}

/// An element of a chain leaves the scan where it found it: a
/// parenthesized sub-selector opens a parenthesis and closes it again.
proof fn lemma_element(w: Seq<char>, x: Seq<char>, off: int, p: int)
    requires
        embeds(w, x, off),
    ensures
        spec_element(x, p) matches Ok((_, q)) ==> neutral(w, off, p, q),
    decreases x.len() - p, 1int,
{
    if 0 <= p <= x.len() {
        lemma_spaces(w, x, off, p);
        let a = skip_spaces(x, p);
        if char_at(x, a, '(') {
            lemma_spaces(w, x, off, a + 1);
            let b = skip_spaces(x, a + 1);
            if p < b <= x.len() {
                lemma_selector_neutral(w, x, off, b);
                if let Ok((sel, c)) = spec_selector(x, b) {
                    lemma_selector_bounds(x, b);
                    lemma_spaces(w, x, off, c);
                    let dd = skip_spaces(x, c);
                    if char_at(x, dd, ')') {
                        assert forall|d: int| d >= 1 implies #[trigger] scan_at(w, off, p, d, false) == scan_at(
                            w,
                            off,
                            dd + 1,
                            d,
                            false,
                        ) by {
                            assert(scan_at(w, off, p, d, false) == scan_at(w, off, a, d, false));
                            assert(w[off + a] == x[a]);
                            assert(close_scan(w, off + a, d, false, false) == close_scan(w, off + a + 1, d + 1, false, false));
                            assert(scan_at(w, off, a + 1, d + 1, false) == scan_at(w, off, b, d + 1, false));
                            assert(scan_at(w, off, b, d + 1, false) == scan_at(w, off, c, d + 1, false));
                            assert(scan_at(w, off, c, d + 1, false) == scan_at(w, off, dd, d + 1, false));
                            assert(w[off + dd] == x[dd]);
                            assert(close_scan(w, off + dd, d + 1, false, false) == close_scan(w, off + dd + 1, d, false, false));
                        }
                    }
                }
            }
        } else {
            lemma_predicate(w, x, off, a);
            if let Ok((pm, q)) = spec_predicate(x, a) {
                lemma_neutral_trans(w, off, p, a, q);
            }
        }
    }
}

/// Where a selector ends after its start.
proof fn lemma_selector_bounds(x: Seq<char>, p: int)
    ensures
        spec_selector(x, p) matches Ok((_, q)) ==> 0 <= p <= q <= x.len(),
{
    if let Ok((sel, q)) = spec_selector(x, p) {
        let a = skip_spaces(x, p);
        let e = spec_element(x, a)->Ok_0.1;
        let f = spec_chain_from(x, e, seq![(crate::selector::Combinator::CurrentAndDescendants, spec_element(x, a)->Ok_0.0.0)], if spec_element(x, a)->Ok_0.0.1 { Some(0usize) } else { None })->Ok_0.2;
        lemma_chain_bounds(x, e, seq![(crate::selector::Combinator::CurrentAndDescendants, spec_element(x, a)->Ok_0.0.0)], if spec_element(x, a)->Ok_0.0.1 { Some(0usize) } else { None });
        crate::parser::scan::lemma_skip_spaces(x, f);
    }
}

proof fn lemma_chain_bounds(
    x: Seq<char>,
    p: int,
    chain: Seq<(crate::selector::Combinator, crate::selector::SpecExpression)>,
    subject: Option<usize>,
)
    ensures
        spec_chain_from(x, p, chain, subject) matches Ok((_, _, q)) ==> p <= q <= x.len(),
    decreases x.len() - p,
{
    if 0 <= p <= x.len() {
        if let Ok((combinator, q)) = spec_combinator(x, p) {
            if p < q <= x.len() {
                if let Ok(((expr, marked), e)) = spec_element(x, q) {
                    if q < e <= x.len() && !(marked && subject is Some) {
                        lemma_chain_bounds(x, e, chain.push((combinator, expr)), if marked { Some(chain.len() as usize) } else { subject });
                    }
                }
            }
        }
    }
}

/// The rest of a chain leaves the scan where it found it.
proof fn lemma_chain_from(
    w: Seq<char>,
    x: Seq<char>,
    off: int,
    p: int,
    chain: Seq<(crate::selector::Combinator, crate::selector::SpecExpression)>,
    subject: Option<usize>,
)
    requires
        embeds(w, x, off),
    ensures
        spec_chain_from(x, p, chain, subject) matches Ok((_, _, q)) ==> neutral(w, off, p, q),
    decreases x.len() - p, 2int,
{
    if 0 <= p <= x.len() {
        lemma_combinator(w, x, off, p);
        if let Ok((combinator, q)) = spec_combinator(x, p) {
            if p < q <= x.len() {
                lemma_element(w, x, off, q);
                if let Ok(((expr, marked), e)) = spec_element(x, q) {
                    if q < e <= x.len() && !(marked && subject is Some) {
                        let next_subject = if marked {
                            Some(chain.len() as usize)
                        } else {
                            subject
                        };
                        lemma_chain_from(w, x, off, e, chain.push((combinator, expr)), next_subject);
                        if let Ok((c, subj, f)) = spec_chain_from(x, e, chain.push((combinator, expr)), next_subject) {
                            lemma_neutral_trans(w, off, p, q, e);
                            lemma_neutral_trans(w, off, p, e, f);
                        }
                    }
                }
            }
        }
    }
}

/// A selector leaves the scan where it found it: outside strings, its
/// parentheses pair up.
pub proof fn lemma_selector_neutral(w: Seq<char>, x: Seq<char>, off: int, p: int)
    requires
        embeds(w, x, off),
    ensures
        spec_selector(x, p) matches Ok((_, q)) ==> neutral(w, off, p, q),
    decreases x.len() - p, 3int,
{
    if 0 <= p <= x.len() {
        lemma_spaces(w, x, off, p);
        let a = skip_spaces(x, p);
        if p <= a <= x.len() {
            lemma_element(w, x, off, a);
            if let Ok(((first, marked), e)) = spec_element(x, a) {
                if a < e <= x.len() {
                    let start = seq![(crate::selector::Combinator::CurrentAndDescendants, first)];
                    let subject = if marked {
                        Some(0usize)
                    } else {
                        None
                    };
                    lemma_chain_from(w, x, off, e, start, subject);
                    lemma_chain_bounds(x, e, start, subject);
                    if let Ok((chain, subj, f)) = spec_chain_from(x, e, start, subject) {
                        lemma_spaces(w, x, off, f);
                        lemma_neutral_trans(w, off, p, a, e);
                        lemma_neutral_trans(w, off, p, e, f);
                        lemma_neutral_trans(w, off, p, f, skip_spaces(x, f));
                    }
                }
            }
        }
    }
}

} // verus!
