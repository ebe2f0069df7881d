//! The predicate grammar: an optional `!`, a node type, and an optional
//! bracketed list of attributes.
//!
//! ```text
//! predicate  := space* ['!'] space* node-type [space* '[' attributes ']']
//! node-type  := '*' | 'hub' | 'device'
//! attributes := space* attribute (space* ',' space* attribute)* space*
//! attribute  := space* key space* '=' space* value
//! ```

use vstd::prelude::*;

use crate::node::{NodeType, PortNumber};
use crate::parser::scan::{
    char_at, char_is, digits_end, digits_end_at, hex_end, hex_end_at, hex_prefix_end, is_digit, is_hex, is_space,
    lit_at, skip_hex_prefix, skip_spaces, spaces_end, starts_with, agrees, ParseError, Problem,
    SpecResult,
};
use crate::parser::util::{advance, all_hex, hex_number, radix16, radix16_of, spec_string, string_at};
use crate::predicate::{empty_predicate, Predicate, SpecPredicate};
use crate::text::{chars_of, push_char, push_range, string_from};

verus! {

/// The attributes that a predicate can constrain.
#[derive(Debug, Clone, Copy, PartialEq, Eq, Structural)]
pub enum AttrKey {
    Port,
    Id,
    Vid,
    Pid,
    Serial,
    Manufacturer,
    Product,
}

/// The name of an attribute as it is written.
pub open spec fn key_text(k: AttrKey) -> Seq<char> {
    match k {
        AttrKey::Port => seq!['p', 'o', 'r', 't'],
        AttrKey::Id => seq!['i', 'd'],
        AttrKey::Vid => seq!['v', 'i', 'd'],
        AttrKey::Pid => seq!['p', 'i', 'd'],
        AttrKey::Serial => seq!['s', 'e', 'r', 'i', 'a', 'l'],
        AttrKey::Manufacturer => seq!['m', 'a', 'n', 'u', 'f', 'a', 'c', 't', 'u', 'r', 'e', 'r'],
        AttrKey::Product => seq!['p', 'r', 'o', 'd', 'u', 'c', 't'],
    }
}

/// An attribute list as keys and the text of their values, in the order written.
pub type AttrList = Seq<(AttrKey, Seq<char>)>;

/// The attributes held by a vector, their values taken as text.
pub open spec fn attr_view(v: Seq<(AttrKey, String)>) -> AttrList {
    v.map_values(|kv: (AttrKey, String)| (kv.0, kv.1@))
}

/// The node type at `p`: `*`, `hub` or `device`, tried in that order.
pub open spec fn spec_node_type(s: Seq<char>, p: int) -> SpecResult<Option<NodeType>> {
    if char_at(s, p, '*') {
        Ok((None, p + 1))
    } else if starts_with(s, p, seq!['h', 'u', 'b']) {
        Ok((Some(NodeType::Hub), p + 3))
    } else if starts_with(s, p, seq!['d', 'e', 'v', 'i', 'c', 'e']) {
        Ok((Some(NodeType::Device), p + 6))
    } else {
        Err(ParseError::Backtrack)
    }
}

/// `k` is written at `p`.
pub open spec fn key_at(s: Seq<char>, p: int, k: AttrKey) -> bool {
    starts_with(s, p, key_text(k))
}

/// The attribute name at `p`, the names tried in the order of [`AttrKey`].
pub open spec fn spec_attribute_key(s: Seq<char>, p: int) -> SpecResult<AttrKey> {
    let k = if key_at(s, p, AttrKey::Port) {
        Some(AttrKey::Port)
    } else if key_at(s, p, AttrKey::Id) {
        Some(AttrKey::Id)
    } else if key_at(s, p, AttrKey::Vid) {
        Some(AttrKey::Vid)
    } else if key_at(s, p, AttrKey::Pid) {
        Some(AttrKey::Pid)
    } else if key_at(s, p, AttrKey::Serial) {
        Some(AttrKey::Serial)
    } else if key_at(s, p, AttrKey::Manufacturer) {
        Some(AttrKey::Manufacturer)
    } else if key_at(s, p, AttrKey::Product) {
        Some(AttrKey::Product)
    } else {
        None
    };
    match k {
        Some(k) => Ok((k, p + key_text(k).len())),
        None => Err(ParseError::Backtrack),
    }
}

/// One to four hexadecimal digits at `p`, after an optional `0x`: where the
/// digits start and where they end (the two are equal when there are none).
pub open spec fn hex_run(s: Seq<char>, p: int) -> (int, int) {
    let q = skip_hex_prefix(s, p);
    (q, hex_end(s, q, 4))
}

/// A vendor or product id value at `p`; failing commits with `problem`.
pub open spec fn spec_hex_value(s: Seq<char>, p: int, problem: Problem) -> SpecResult<Seq<char>> {
    let (q, e) = hex_run(s, p);
    if q < e {
        Ok((s.subrange(q, e), e))
    } else {
        Err(ParseError::Cut(problem))
    }
}

/// The value of attribute `k` at `p`. A port is one or more decimal digits;
/// an id is two hexadecimal values joined by `:`; a vendor or product id is
/// one hexadecimal value; the others are quoted strings. Once the `=` is read
/// a malformed number commits the parse to failure.
pub open spec fn spec_attribute_value(s: Seq<char>, k: AttrKey, p: int) -> SpecResult<Seq<char>> {
    match k {
        AttrKey::Port => {
            let e = digits_end(s, p);
            if p < e {
                Ok((s.subrange(p, e), e))
            } else {
                Err(ParseError::Cut(Problem::Port))
            }
        },
        AttrKey::Id => {
            let (q, e) = hex_run(s, p);
            if q == e || !char_at(s, e, ':') {
                Err(ParseError::Cut(Problem::Id))
            } else {
                let (q2, e2) = hex_run(s, e + 1);
                if q2 == e2 {
                    Err(ParseError::Cut(Problem::Id))
                } else {
                    Ok((s.subrange(q, e) + seq![':'] + s.subrange(q2, e2), e2))
                }
            }
        },
        AttrKey::Vid => spec_hex_value(s, p, Problem::VendorId),
        AttrKey::Pid => spec_hex_value(s, p, Problem::ProductId),
        _ => spec_string(s, p),
    }
}

/// One attribute at `p`: a name, `=` and a value, with spaces around.
pub open spec fn spec_attribute(s: Seq<char>, p: int) -> SpecResult<(AttrKey, Seq<char>)> {
    match spec_attribute_key(s, skip_spaces(s, p)) {
        Ok((k, b)) => {
            let c = skip_spaces(s, b);
            if char_at(s, c, '=') {
                match spec_attribute_value(s, k, skip_spaces(s, c + 1)) {
                    Ok((v, e)) => Ok(((k, v), e)),
                    Err(x) => Err(x),
                }
            } else {
                Err(ParseError::Backtrack)
            }
        },
        Err(x) => Err(x),
    }
}

/// The attributes that follow one at `p`, each after a comma. A comma that
/// is not followed by an attribute is left unread.
pub open spec fn spec_attr_rest(s: Seq<char>, p: int) -> Result<(AttrList, int), ParseError>
    decreases s.len() - p,
{
    let a = skip_spaces(s, p);
    if !char_at(s, a, ',') {
        Ok((seq![], p))
    } else {
        match spec_attribute(s, skip_spaces(s, a + 1)) {
            Ok((kv, e)) => if p < e <= s.len() {
                match spec_attr_rest(s, e) {
                    Ok((rest, f)) => Ok((seq![kv] + rest, f)),
                    Err(x) => Err(x),
                }
            } else {
                Ok((seq![], p))
            },
            Err(ParseError::Backtrack) => Ok((seq![], p)),
            Err(x) => Err(x),
        }
    }
}

/// No attribute is named twice in `list`.
pub open spec fn keys_distinct(list: AttrList) -> bool {
    forall|i: int, j: int| 0 <= i < j < list.len() ==> #[trigger] list[i].0 != #[trigger] list[j].0
}

/// A bracketed, comma-separated list of one or more attributes at `p`, with
/// no name given twice.
pub open spec fn spec_attributes(s: Seq<char>, p: int) -> SpecResult<AttrList> {
    let a = skip_spaces(s, p);
    if !char_at(s, a, '[') {
        Err(ParseError::Backtrack)
    } else {
        match spec_attribute(s, skip_spaces(s, a + 1)) {
            Err(x) => Err(x),
            Ok((kv, e)) => match spec_attr_rest(s, e) {
                Err(x) => Err(x),
                Ok((rest, f)) => {
                    let c = skip_spaces(s, f);
                    if !char_at(s, c, ']') {
                        Err(ParseError::Backtrack)
                    } else if !keys_distinct(seq![kv] + rest) {
                        Err(ParseError::Cut(Problem::DuplicateAttribute))
                    } else {
                        Ok((seq![kv] + rest, c + 1))
                    }
                },
            },
        }
    }
}

/// A bracketed attribute list that reads names no attribute twice, at any
/// two positions, so the value of each attribute of a predicate is the one
/// written for it. A list that is read through to its `]` but names one
/// attribute at two positions, next to each other or not, is refused as a
/// duplicate: `[vid=a, pid=b, vid=c]` is refused.
pub proof fn law_attributes_distinct(s: Seq<char>, p: int)
    ensures
        spec_attributes(s, p) matches Ok((list, _)) ==> forall|i: int, j: int|
            0 <= i < j < list.len() ==> #[trigger] list[i].0 != #[trigger] list[j].0,
        ({
            let a = skip_spaces(s, p);
            char_at(s, a, '[') && (spec_attribute(s, skip_spaces(s, a + 1)) matches Ok((kv, e)) && (
            spec_attr_rest(s, e) matches Ok((rest, f)) && char_at(s, skip_spaces(s, f), ']') && exists|i: int, j: int|
                0 <= i < j < rest.len() + 1 && #[trigger] (seq![kv] + rest)[i].0 == #[trigger] (seq![kv]
                    + rest)[j].0))
        }) ==> spec_attributes(s, p) == Err::<(AttrList, int), ParseError>(ParseError::Cut(Problem::DuplicateAttribute)),
{
}

/// The value given for `k` in `list`, from index `i` on.
pub open spec fn lookup_from(list: AttrList, k: AttrKey, i: int) -> Option<Seq<char>>
    decreases list.len() - i,
{
    if i < 0 || i >= list.len() {
        None
    } else if list[i].0 == k {
        Some(list[i].1)
    } else {
        lookup_from(list, k, i + 1)
    }
}

/// The value given for `k` in `list`.
pub open spec fn lookup(list: AttrList, k: AttrKey) -> Option<Seq<char>> {
    lookup_from(list, k, 0)
}

/// The value of the decimal digits `ds`.
pub open spec fn digits_value(ds: Seq<char>) -> int
    decreases ds.len(),
{
    if ds.len() == 0 {
        0
    } else {
        digits_value(ds.drop_last()) * 10 + (ds.last() as int - 48)
    }
}

/// Every character of `ds` is a decimal digit.
pub open spec fn all_digits(ds: Seq<char>) -> bool {
    forall|i: int| 0 <= i < ds.len() ==> is_digit(#[trigger] ds[i])
}

/// What `u8::from_str` accepts: an optional `+`, then one or more decimal
/// digits whose value is at most 255.
pub open spec fn decimal_u8(text: Seq<char>) -> Option<u8> {
    let ds = if text.len() > 0 && text[0] == '+' {
        text.drop_first()
    } else {
        text
    };
    if ds.len() > 0 && all_digits(ds) && digits_value(ds) <= 255 {
        Some(digits_value(ds) as u8)
    } else {
        None
    }
}

/// The port constraint given by an optional port value; `None` when the
/// value is not a number that fits in a byte.
pub open spec fn port_value(v: Option<Seq<char>>) -> Option<Option<PortNumber>> {
    match v {
        Some(t) => match decimal_u8(t) {
            Some(n) => Some(Some(PortNumber(n))),
            None => None,
        },
        None => Some(None),
    }
}

/// An optional hexadecimal value read as an optional `u16`; `None` when it
/// does not read as one.
pub open spec fn hex_id_value(v: Option<Seq<char>>) -> Option<Option<u16>> {
    match v {
        Some(t) => match radix16(t) {
            Some(n) => Some(Some(n)),
            None => None,
        },
        None => Some(None),
    }
}

/// The end of the `:`-separated field of `v` that starts at `i`.
pub open spec fn field_end(v: Seq<char>, i: int) -> int
    decreases v.len() - i,
{
    if 0 <= i < v.len() && v[i] != ':' {
        field_end(v, i + 1)
    } else {
        i
    }
}

/// An id value `vendor:product` split at its first `:`, each half read as a
/// hexadecimal `u16`.
pub open spec fn id_pair(v: Seq<char>) -> Option<(u16, u16)> {
    let e = field_end(v, 0);
    if e < v.len() {
        match (radix16(v.subrange(0, e)), radix16(v.subrange(e + 1, field_end(v, e + 1)))) {
            (Some(a), Some(b)) => Some((a, b)),
            _ => None,
        }
    } else {
        None
    }
}

/// The predicate that a node type and an attribute list describe, or the
/// problem that keeps them from describing one: a port that does not fit in
/// a byte, an id that does not read as hexadecimal, or an `id` given with a
/// `vid` or a `pid`.
pub open spec fn predicate_from(node_type: Option<NodeType>, list: AttrList) -> Result<SpecPredicate, Problem> {
    match port_value(lookup(list, AttrKey::Port)) {
        None => Err(Problem::Port),
        Some(port_number) => match hex_id_value(lookup(list, AttrKey::Vid)) {
            None => Err(Problem::Id),
            Some(vid) => match hex_id_value(lookup(list, AttrKey::Pid)) {
                None => Err(Problem::Id),
                Some(pid) => {
                    let ids = match lookup(list, AttrKey::Id) {
                        Some(v) => if vid is Some || pid is Some {
                            Err(Problem::ConflictingId)
                        } else {
                            match id_pair(v) {
                                Some((a, b)) => Ok((Some(a), Some(b))),
                                None => Err(Problem::Id),
                            }
                        },
                        None => Ok((vid, pid)),
                    };
                    match ids {
                        Err(x) => Err(x),
                        Ok((vendor_id, product_id)) => Ok(
                            SpecPredicate {
                                node_type,
                                port_number,
                                vendor_id,
                                product_id,
                                serial_number: lookup(list, AttrKey::Serial),
                                manufacturer: lookup(list, AttrKey::Manufacturer),
                                product: lookup(list, AttrKey::Product),
                            },
                        ),
                    }
                },
            },
        },
    }
}

/// A predicate at `p` and whether it is marked as the subject with `!`. The
/// attribute list is read only where the next character after spaces is `[`.
pub open spec fn spec_predicate(s: Seq<char>, p: int) -> SpecResult<(SpecPredicate, bool)> {
    let a = skip_spaces(s, p);
    let subject = char_at(s, a, '!');
    let b = skip_spaces(s, if subject { a + 1 } else { a });
    match spec_node_type(s, b) {
        Err(x) => Err(x),
        Ok((node_type, c)) => {
            let attrs = if char_at(s, skip_spaces(s, c), '[') {
                spec_attributes(s, c)
            } else {
                Ok((seq![], c))
            };
            match attrs {
                Err(x) => Err(x),
                Ok((list, d)) => match predicate_from(node_type, list) {
                    Ok(pred) => Ok(((pred, subject), d)),
                    Err(problem) => Err(ParseError::Cut(problem)),
                },
            }
        },
    }
}

/// `hex_end` stops after a run of `k` hexadecimal digits at `q`, where the
/// run is `max` long or no digit follows it.
proof fn lemma_hex_end_run(s: Seq<char>, q: int, k: int, max: int)
    requires
        0 <= k <= max,
        0 <= q,
        q + k <= s.len(),
        forall|i: int| q <= i < q + k ==> is_hex(#[trigger] s[i]),
        k == max || q + k == s.len() || !is_hex(s[q + k]),
    ensures
        hex_end(s, q, max) == q + k,
    decreases k,
{
    if k > 0 {
        lemma_hex_end_run(s, q + 1, k - 1, max - 1);
    }
}

/// One to four hexadecimal digits spell a number that fits in 16 bits.
proof fn lemma_hex_number_fits(ds: Seq<char>)
    requires
        all_hex(ds),
        ds.len() <= 4,
    ensures
        0 <= hex_number(ds) < if ds.len() == 0 {
            1int
        } else if ds.len() == 1 {
            16int
        } else if ds.len() == 2 {
            256int
        } else if ds.len() == 3 {
            4096int
        } else {
            65536int
        },
    decreases ds.len(),
{
    if ds.len() > 0 {
        assert(all_hex(ds.drop_last()));
        lemma_hex_number_fits(ds.drop_last());
        assert(is_hex(ds[ds.len() - 1]));
    }
}

/// The end of the `:`-separated field at `i` is the first `:` from `i` on,
/// or the end of `v`.
proof fn lemma_field_end_at(v: Seq<char>, i: int, k: int)
    requires
        0 <= i <= k <= v.len(),
        forall|j: int| i <= j < k ==> #[trigger] v[j] != ':',
        k == v.len() || v[k] == ':',
    ensures
        field_end(v, i) == k,
    decreases k - i,
{
    if i < k {
        lemma_field_end_at(v, i + 1, k);
    }
}

/// A hexadecimal value at `p`: the digits `ds`, after the prefix `z`, which
/// is `0x` or nothing.
proof fn lemma_hex_run_exact(s: Seq<char>, p: int, z: Seq<char>, ds: Seq<char>)
    requires
        z == seq!['0', 'x'] || z.len() == 0,
        1 <= ds.len() <= 4,
        all_hex(ds),
        0 <= p,
        p + z.len() + ds.len() <= s.len(),
        s.subrange(p, p + z.len()) == z,
        s.subrange(p + z.len(), p + z.len() + ds.len()) == ds,
        p + z.len() + ds.len() == s.len() || !is_hex(s[p + z.len() + ds.len()]),
        z.len() == 0 ==> !char_at(s, p + 1, 'x'),
    ensures
        hex_run(s, p) == (p + z.len(), p + z.len() + ds.len()),
{
    let q = p + z.len();
    if z.len() == 0 {
        assert(!starts_with(s, p, seq!['0', 'x'])) by {
            if starts_with(s, p, seq!['0', 'x']) {
                assert(s.subrange(p, p + 2)[1] == 'x');
            }
        }
    } else {
        assert(starts_with(s, p, seq!['0', 'x']));
    }
    assert(skip_hex_prefix(s, p) == q);
    assert forall|i: int| q <= i < q + ds.len() implies is_hex(#[trigger] s[i]) by {
        assert(s[i] == ds[i - q]);
    }
    lemma_hex_end_run(s, q, ds.len() as int, 4);
}

/// Two runs of one to four hexadecimal digits joined by `:` split into the
/// two runs, read as their numbers.
proof fn lemma_id_pair_halves(v: Seq<char>, w: Seq<char>)
    requires
        1 <= v.len() <= 4,
        1 <= w.len() <= 4,
        all_hex(v),
        all_hex(w),
    ensures
        hex_number(v) <= 0xFFFF,
        hex_number(w) <= 0xFFFF,
        id_pair(v + seq![':'] + w) == Some((hex_number(v) as u16, hex_number(w) as u16)),
{
    lemma_hex_number_fits(v);
    lemma_hex_number_fits(w);
    let vw = v + seq![':'] + w;
    assert(!is_hex(':'));
    assert forall|j: int| 0 <= j < v.len() implies #[trigger] vw[j] != ':' by {
        assert(vw[j] == v[j]);
        assert(is_hex(v[j]));
    }
    lemma_field_end_at(vw, 0, v.len() as int);
    assert forall|j: int| v.len() + 1 <= j < vw.len() implies #[trigger] vw[j] != ':' by {
        assert(vw[j] == w[j - v.len() - 1]);
        assert(is_hex(w[j - v.len() - 1]));
    }
    lemma_field_end_at(vw, v.len() + 1int, vw.len() as int);
    assert(vw.subrange(0, v.len() as int) =~= v);
    assert(vw.subrange(v.len() + 1int, vw.len() as int) =~= w);
    assert(is_hex(v[0]) && is_hex(w[0]));
    assert(radix16(v) == Some(hex_number(v) as u16));
    assert(radix16(w) == Some(hex_number(w) as u16));
}

/// The `id` value at `p` of a text that holds there the prefix `z1`, the
/// digits `v`, `:`, the prefix `z2` and the digits `w`.
proof fn lemma_id_value_at(s: Seq<char>, p: int, z1: Seq<char>, v: Seq<char>, z2: Seq<char>, w: Seq<char>)
    requires
        z1 == seq!['0', 'x'] || z1.len() == 0,
        z2 == seq!['0', 'x'] || z2.len() == 0,
        1 <= v.len() <= 4,
        1 <= w.len() <= 4,
        all_hex(v),
        all_hex(w),
        0 <= p,
        p + z1.len() + v.len() + 1 + z2.len() + w.len() <= s.len(),
        s.subrange(p, p + z1.len()) == z1,
        s.subrange(p + z1.len(), p + z1.len() + v.len()) == v,
        s[p + z1.len() + v.len()] == ':',
        s.subrange(p + z1.len() + v.len() + 1, p + z1.len() + v.len() + 1 + z2.len()) == z2,
        s.subrange(p + z1.len() + v.len() + 1 + z2.len(), p + z1.len() + v.len() + 1 + z2.len() + w.len()) == w,
        ({
            let e2 = p + z1.len() + v.len() + 1 + z2.len() + w.len();
            e2 == s.len() || (!is_hex(s[e2]) && s[e2] != 'x')
        }),
    ensures
        spec_attribute_value(s, AttrKey::Id, p) == Ok::<(Seq<char>, int), ParseError>(
            (v + seq![':'] + w, p + z1.len() + v.len() + 1 + z2.len() + w.len()),
        ),
{
    let a = p + z1.len();
    let e = a + v.len();
    let a2 = e + 1 + z2.len();
    let e2 = a2 + w.len();
    assert(!is_hex(':'));
    assert(hex_run(s, p) == (a, e)) by {
        if z1.len() == 0 {
            if v.len() > 1 {
                assert(s[p + 1] == s.subrange(a, e)[1]);
                assert(is_hex(v[1]));
            }
        }
        lemma_hex_run_exact(s, p, z1, v);
    }
    assert(hex_run(s, e + 1) == (a2, e2)) by {
        if z2.len() == 0 {
            if w.len() > 1 {
                assert(s[e + 2] == s.subrange(a2, e2)[1]);
                assert(is_hex(w[1]));
            }
        }
        lemma_hex_run_exact(s, e + 1, z2, w);
    }
    assert(char_at(s, e, ':'));
    assert(s.subrange(a, e) + seq![':'] + s.subrange(a2, e2) =~= v + seq![':'] + w);
}

/// Where the pieces of the text `z1 v : z2 w` stand.
proof fn lemma_id_text_parts(z1: Seq<char>, v: Seq<char>, z2: Seq<char>, w: Seq<char>)
    ensures
        ({
            let t = z1 + v + seq![':'] + z2 + w;
            let l1 = z1.len() as int;
            let lv = v.len() as int;
            let l2 = z2.len() as int;
            &&& t.len() == l1 + lv + 1 + l2 + w.len()
            &&& t.subrange(0, l1) == z1
            &&& t.subrange(l1, l1 + lv) == v
            &&& t[l1 + lv] == ':'
            &&& t.subrange(l1 + lv + 1, l1 + lv + 1 + l2) == z2
            &&& t.subrange(l1 + lv + 1 + l2, t.len() as int) == w
        }),
{
    let t = z1 + v + seq![':'] + z2 + w;
    let l1 = z1.len() as int;
    let lv = v.len() as int;
    let l2 = z2.len() as int;
    assert(t.subrange(0, l1) =~= z1);
    assert(t.subrange(l1, l1 + lv) =~= v);
    assert(t.subrange(l1 + lv + 1, l1 + lv + 1 + l2) =~= z2);
    assert(t.subrange(l1 + lv + 1 + l2, t.len() as int) =~= w);
}

/// The `id` value at `p` of a text that holds `z1 v : z2 w` from `p` on,
/// followed by the end of the text or by a character that is neither a
/// hexadecimal digit nor `x`.
proof fn lemma_id_value_in(s: Seq<char>, p: int, z1: Seq<char>, v: Seq<char>, z2: Seq<char>, w: Seq<char>)
    requires
        z1 == seq!['0', 'x'] || z1.len() == 0,
        z2 == seq!['0', 'x'] || z2.len() == 0,
        1 <= v.len() <= 4,
        1 <= w.len() <= 4,
        all_hex(v),
        all_hex(w),
        0 <= p,
        p + (z1 + v + seq![':'] + z2 + w).len() <= s.len(),
        s.subrange(p, p + (z1 + v + seq![':'] + z2 + w).len()) == z1 + v + seq![':'] + z2 + w,
        ({
            let e2 = p + (z1 + v + seq![':'] + z2 + w).len();
            e2 == s.len() || (!is_hex(s[e2]) && s[e2] != 'x')
        }),
    ensures
        spec_attribute_value(s, AttrKey::Id, p) == Ok::<(Seq<char>, int), ParseError>(
            (v + seq![':'] + w, p + (z1 + v + seq![':'] + z2 + w).len()),
        ),
{
    let t = z1 + v + seq![':'] + z2 + w;
    lemma_id_text_parts(z1, v, z2, w);
    let l1 = z1.len() as int;
    let lv = v.len() as int;
    let l2 = z2.len() as int;
    let a = p + l1;
    let e = a + lv;
    let a2 = e + 1 + l2;
    let e2 = p + t.len();
    let u = s.subrange(p, e2);
    assert(s.subrange(p, a) =~= u.subrange(0, l1));
    assert(s.subrange(a, e) =~= u.subrange(l1, l1 + lv));
    assert(s[e] == u[l1 + lv]);
    assert(s.subrange(e + 1, a2) =~= u.subrange(l1 + lv + 1, l1 + lv + 1 + l2));
    assert(s.subrange(a2, e2) =~= u.subrange(l1 + lv + 1 + l2, t.len() as int));
    lemma_id_value_at(s, p, z1, v, z2, w);
}

/// An `id` value: one to four hexadecimal digits, `:`, and one to four more,
/// each half with or without a `0x` prefix, reads as the two halves joined
/// by `:`, whose halves read as the vendor and the product id. So
/// `id=0x18d1:0x1234`, `id=18d1:0x1234` and `id=18d1:1234` all give vendor
/// `0x18d1` and product `0x1234`.
pub proof fn law_id_value(pre: Seq<char>, z1: Seq<char>, v: Seq<char>, z2: Seq<char>, w: Seq<char>, rest: Seq<char>)
    requires
        z1 == seq!['0', 'x'] || z1.len() == 0,
        z2 == seq!['0', 'x'] || z2.len() == 0,
        1 <= v.len() <= 4,
        1 <= w.len() <= 4,
        all_hex(v),
        all_hex(w),
        rest.len() == 0 || (!is_hex(rest[0]) && rest[0] != 'x'),
    ensures
        spec_attribute_value(pre + (z1 + v + seq![':'] + z2 + w) + rest, AttrKey::Id, pre.len() as int)
            == Ok::<(Seq<char>, int), ParseError>((v + seq![':'] + w, pre.len() + (z1 + v + seq![':'] + z2 + w).len() as int)),
        hex_number(v) <= 0xFFFF,
        hex_number(w) <= 0xFFFF,
        id_pair(v + seq![':'] + w) == Some((hex_number(v) as u16, hex_number(w) as u16)),
{
    lemma_id_pair_halves(v, w);
    let t = z1 + v + seq![':'] + z2 + w;
    let s = pre + t + rest;
    let p = pre.len() as int;
    let e2 = p + t.len();
    assert(s.subrange(p, e2) =~= t);
    if e2 < s.len() {
        assert(s[e2] == rest[0]);
    }
    lemma_id_value_in(s, p, z1, v, z2, w);
}

/// A `vid` or `pid` value: one to four hexadecimal digits, with or without a
/// `0x` prefix, reads as those digits. So `vid=0x046d` and `vid=046d` read
/// alike.
pub proof fn law_hex_value(pre: Seq<char>, z: Seq<char>, v: Seq<char>, rest: Seq<char>)
    requires
        z == seq!['0', 'x'] || z.len() == 0,
        1 <= v.len() <= 4,
        all_hex(v),
        rest.len() == 0 || (!is_hex(rest[0]) && rest[0] != 'x'),
    ensures
        spec_attribute_value(pre + (z + v) + rest, AttrKey::Vid, pre.len() as int)
            == Ok::<(Seq<char>, int), ParseError>((v, pre.len() + (z + v).len() as int)),
        spec_attribute_value(pre + (z + v) + rest, AttrKey::Pid, pre.len() as int)
            == Ok::<(Seq<char>, int), ParseError>((v, pre.len() + (z + v).len() as int)),
        hex_number(v) <= 0xFFFF,
        radix16(v) == Some(hex_number(v) as u16),
{
    lemma_hex_number_fits(v);
    assert(is_hex(v[0]));
    let t = z + v;
    let s = pre + t + rest;
    let p = pre.len() as int;
    let e = p + t.len();
    assert(s.subrange(p, e) =~= t);
    assert(s.subrange(p, p + z.len()) =~= z) by {
        assert(s.subrange(p, p + z.len()) =~= s.subrange(p, e).subrange(0, z.len() as int));
    }
    assert(s.subrange(p + z.len(), e) =~= v) by {
        assert(s.subrange(p + z.len(), e) =~= s.subrange(p, e).subrange(z.len() as int, t.len() as int));
    }
    if e < s.len() {
        assert(s[e] == rest[0]);
    }
    if z.len() == 0 && p + 1 < s.len() {
        if v.len() > 1 {
            assert(s[p + 1] == v[1]);
            assert(is_hex(v[1]));
        } else {
            assert(s[p + 1] == rest[0]);
        }
    }
    lemma_hex_run_exact(s, p, z, v);
}

/// An attribute list that holds one `id` names it alone.
proof fn lemma_id_list_predicate(v: Seq<char>, w: Seq<char>)
    requires
        1 <= v.len() <= 4,
        1 <= w.len() <= 4,
        all_hex(v),
        all_hex(w),
    ensures
        predicate_from(Some(NodeType::Device), seq![(AttrKey::Id, v + seq![':'] + w)]) == Ok::<SpecPredicate, Problem>(
            SpecPredicate {
                node_type: Some(NodeType::Device),
                vendor_id: Some(hex_number(v) as u16),
                product_id: Some(hex_number(w) as u16),
                ..empty_predicate()
            },
        ),
{
    lemma_id_pair_halves(v, w);
    let list = seq![(AttrKey::Id, v + seq![':'] + w)];
    assert(lookup_from(list, AttrKey::Port, 1) is None);
    assert(lookup_from(list, AttrKey::Vid, 1) is None);
    assert(lookup_from(list, AttrKey::Pid, 1) is None);
    assert(lookup_from(list, AttrKey::Serial, 1) is None);
    assert(lookup_from(list, AttrKey::Manufacturer, 1) is None);
    assert(lookup_from(list, AttrKey::Product, 1) is None);
    assert(lookup(list, AttrKey::Id) == Some(v + seq![':'] + w));
}

/// The attribute list `[id=z1 v : z2 w]` whose `[` stands at `b`, the last
/// character of the text.
proof fn lemma_id_attributes(s: Seq<char>, b: int, z1: Seq<char>, v: Seq<char>, z2: Seq<char>, w: Seq<char>)
    requires
        z1 == seq!['0', 'x'] || z1.len() == 0,
        z2 == seq!['0', 'x'] || z2.len() == 0,
        1 <= v.len() <= 4,
        1 <= w.len() <= 4,
        all_hex(v),
        all_hex(w),
        0 <= b,
        s.len() == b + 5 + (z1 + v + seq![':'] + z2 + w).len(),
        s.subrange(b, b + 4) == seq!['[', 'i', 'd', '='],
        s.subrange(b + 4, s.len() - 1) == z1 + v + seq![':'] + z2 + w,
        s[s.len() - 1] == ']',
    ensures
        spec_attributes(s, b) == Ok::<(AttrList, int), ParseError>(
            (seq![(AttrKey::Id, v + seq![':'] + w)], s.len() as int),
        ),
{
    let t = z1 + v + seq![':'] + z2 + w;
    let e2 = s.len() - 1;
    assert(s[b] == s.subrange(b, b + 4)[0]);
    assert(s[b + 1] == s.subrange(b, b + 4)[1]);
    assert(s[b + 2] == s.subrange(b, b + 4)[2]);
    assert(s[b + 3] == s.subrange(b, b + 4)[3]);
    assert(skip_spaces(s, b) == b);
    assert(skip_spaces(s, b + 1) == b + 1);
    assert(!key_at(s, b + 1, AttrKey::Port)) by {
        if key_at(s, b + 1, AttrKey::Port) {
            assert(s.subrange(b + 1, b + 5)[0] == 'p');
        }
    }
    assert(key_at(s, b + 1, AttrKey::Id)) by {
        assert(s.subrange(b + 1, b + 3) =~= seq!['i', 'd']);
    }
    assert(spec_attribute_key(s, b + 1) == Ok::<(AttrKey, int), ParseError>((AttrKey::Id, b + 3)));
    assert(skip_spaces(s, b + 3) == b + 3);
    assert(s[b + 4] == t[0]);
    assert(t[0] == '0' || is_hex(t[0])) by {
        if z1.len() == 0 {
            assert(t[0] == v[0]);
        } else {
            assert(t[0] == z1[0]);
        }
    }
    assert(skip_spaces(s, b + 4) == b + 4);
    lemma_id_value_in(s, b + 4, z1, v, z2, w);
    let kv = (AttrKey::Id, v + seq![':'] + w);
    assert(spec_attribute(s, b + 1) == Ok::<((AttrKey, Seq<char>), int), ParseError>((kv, e2)));
    assert(skip_spaces(s, e2) == e2);
    assert(spec_attr_rest(s, e2) == Ok::<(AttrList, int), ParseError>((seq![], e2)));
    let list = seq![kv] + Seq::<(AttrKey, Seq<char>)>::empty();
    assert(list =~= seq![kv]);
    assert(keys_distinct(list));
}

/// `device[id=V:P]`, each of the hexadecimal runs `V` and `P` one to four
/// digits long and each with or without a `0x` prefix, reads as the
/// predicate on devices whose vendor id is `V` and whose product id is `P`,
/// and nothing else: `device[id=0x18d1:0x1234]`, `device[id=18d1:0x1234]`
/// and `device[id=18d1:1234]` read alike.
pub proof fn law_id_predicate(z1: Seq<char>, v: Seq<char>, z2: Seq<char>, w: Seq<char>)
    requires
        z1 == seq!['0', 'x'] || z1.len() == 0,
        z2 == seq!['0', 'x'] || z2.len() == 0,
        1 <= v.len() <= 4,
        1 <= w.len() <= 4,
        all_hex(v),
        all_hex(w),
    ensures
        hex_number(v) <= 0xFFFF,
        hex_number(w) <= 0xFFFF,
        spec_predicate(
            seq!['d', 'e', 'v', 'i', 'c', 'e', '[', 'i', 'd', '='] + (z1 + v + seq![':'] + z2 + w) + seq![']'],
            0,
        ) == Ok::<((SpecPredicate, bool), int), ParseError>(
            (
                (
                    SpecPredicate {
                        node_type: Some(NodeType::Device),
                        vendor_id: Some(hex_number(v) as u16),
                        product_id: Some(hex_number(w) as u16),
                        ..empty_predicate()
                    },
                    false,
                ),
                11 + (z1 + v + seq![':'] + z2 + w).len() as int,
            ),
        ),
{
    lemma_id_pair_halves(v, w);
    let t = z1 + v + seq![':'] + z2 + w;
    let s = seq!['d', 'e', 'v', 'i', 'c', 'e', '[', 'i', 'd', '='] + t + seq![']'];
    lemma_device_id_text(t);
    lemma_id_attributes(s, 6, z1, v, z2, w);
    lemma_id_list_predicate(v, w);
    lemma_device_predicate(
        s,
        seq![(AttrKey::Id, v + seq![':'] + w)],
        SpecPredicate {
            node_type: Some(NodeType::Device),
            vendor_id: Some(hex_number(v) as u16),
            product_id: Some(hex_number(w) as u16),
            ..empty_predicate()
        },
    );
}

/// Where the pieces of the text `device[id=t]` stand.
proof fn lemma_device_id_text(t: Seq<char>)
    ensures
        ({
            let s = seq!['d', 'e', 'v', 'i', 'c', 'e', '[', 'i', 'd', '='] + t + seq![']'];
            &&& s.len() == 11 + t.len()
            &&& s.subrange(0, 6) == seq!['d', 'e', 'v', 'i', 'c', 'e']
            &&& s[6] == '['
            &&& s.subrange(6, 10) == seq!['[', 'i', 'd', '=']
            &&& s.subrange(10, s.len() - 1) == t
            &&& s[s.len() - 1] == ']'
        }),
{
    let s = seq!['d', 'e', 'v', 'i', 'c', 'e', '[', 'i', 'd', '='] + t + seq![']'];
    assert(s.subrange(0, 6) =~= seq!['d', 'e', 'v', 'i', 'c', 'e']);
    assert(s.subrange(6, 10) =~= seq!['[', 'i', 'd', '=']);
    assert(s.subrange(10, s.len() - 1) =~= t);
}

/// A text that starts with `device[`, whose attribute list reads as `list`,
/// reads as the predicate that `list` describes, not marked as the subject.
proof fn lemma_device_predicate(s: Seq<char>, list: AttrList, pred: SpecPredicate)
    requires
        s.len() > 6,
        s.subrange(0, 6) == seq!['d', 'e', 'v', 'i', 'c', 'e'],
        s[6] == '[',
        spec_attributes(s, 6) matches Ok((l, _)) && l == list,
        predicate_from(Some(NodeType::Device), list) == Ok::<SpecPredicate, Problem>(pred),
    ensures
        spec_predicate(s, 0) == Ok::<((SpecPredicate, bool), int), ParseError>(
            ((pred, false), spec_attributes(s, 6)->Ok_0.1),
        ),
{
    assert(s[0] == s.subrange(0, 6)[0]);
    assert(skip_spaces(s, 0) == 0);
    assert(!starts_with(s, 0, seq!['h', 'u', 'b'])) by {
        if starts_with(s, 0, seq!['h', 'u', 'b']) {
            assert(s.subrange(0, 3)[0] == 'h');
        }
    }
    assert(starts_with(s, 0, seq!['d', 'e', 'v', 'i', 'c', 'e']));
    assert(spec_node_type(s, 0) == Ok::<(Option<NodeType>, int), ParseError>((Some(NodeType::Device), 6)));
    assert(skip_spaces(s, 6) == 6);
}

/// The node type at `p`.
pub fn node_type_at(s: &Vec<char>, p: usize) -> (r: Result<(Option<NodeType>, usize), ParseError>)
    requires
        p <= s@.len(),
    ensures
        agrees(r, spec_node_type(s@, p as int)),
        r matches Ok((_, q)) ==> p < q <= s@.len(),
{
    let n = s.len();
    let hub = ['h', 'u', 'b'];
    let device = ['d', 'e', 'v', 'i', 'c', 'e'];
    assert(hub@ == seq!['h', 'u', 'b']);
    assert(device@ == seq!['d', 'e', 'v', 'i', 'c', 'e']);
    if char_is(s, p, '*') {
        Ok((None, p + 1))
    } else if lit_at(s, p, &hub) {
        Ok((Some(NodeType::Hub), p + 3))
    } else if lit_at(s, p, &device) {
        Ok((Some(NodeType::Device), p + 6))
    } else {
        Err(ParseError::Backtrack)
    }
}

/// The attribute name at `p`.
pub fn attribute_key_at(s: &Vec<char>, p: usize) -> (r: Result<(AttrKey, usize), ParseError>)
    requires
        p <= s@.len(),
    ensures
        agrees(r, spec_attribute_key(s@, p as int)),
        r matches Ok((_, q)) ==> p < q <= s@.len(),
{
    let n = s.len();
    let port = ['p', 'o', 'r', 't'];
    let id = ['i', 'd'];
    let vid = ['v', 'i', 'd'];
    let pid = ['p', 'i', 'd'];
    let serial = ['s', 'e', 'r', 'i', 'a', 'l'];
    let manufacturer = ['m', 'a', 'n', 'u', 'f', 'a', 'c', 't', 'u', 'r', 'e', 'r'];
    let product = ['p', 'r', 'o', 'd', 'u', 'c', 't'];
    assert(port@ == key_text(AttrKey::Port));
    assert(id@ == key_text(AttrKey::Id));
    assert(vid@ == key_text(AttrKey::Vid));
    assert(pid@ == key_text(AttrKey::Pid));
    assert(serial@ == key_text(AttrKey::Serial));
    assert(manufacturer@ == key_text(AttrKey::Manufacturer));
    assert(product@ == key_text(AttrKey::Product));
    if lit_at(s, p, &port) {
        Ok((AttrKey::Port, p + 4))
    } else if lit_at(s, p, &id) {
        Ok((AttrKey::Id, p + 2))
    } else if lit_at(s, p, &vid) {
        Ok((AttrKey::Vid, p + 3))
    } else if lit_at(s, p, &pid) {
        Ok((AttrKey::Pid, p + 3))
    } else if lit_at(s, p, &serial) {
        Ok((AttrKey::Serial, p + 6))
    } else if lit_at(s, p, &manufacturer) {
        Ok((AttrKey::Manufacturer, p + 12))
    } else if lit_at(s, p, &product) {
        Ok((AttrKey::Product, p + 7))
    } else {
        Err(ParseError::Backtrack)
    }
}

/// One to four hexadecimal digits after an optional `0x` at `p`.
fn hex_run_at(s: &Vec<char>, p: usize) -> (r: (usize, usize))
    requires
        p <= s@.len(),
    ensures
        (r.0 as int, r.1 as int) == hex_run(s@, p as int),
        p <= r.0 <= r.1 <= s@.len(),
{
    let q = hex_prefix_end(s, p);
    let e = hex_end_at(s, q, 4);
    (q, e)
}

/// The value of attribute `k` at `p`.
pub fn attribute_value_at(s: &Vec<char>, k: AttrKey, p: usize) -> (r: Result<(String, usize), ParseError>)
    requires
        p <= s@.len(),
    ensures
        match r {
            Ok((v, q)) => spec_attribute_value(s@, k, p as int) == Ok::<(Seq<char>, int), ParseError>((v@, q as int)) && p < q <= s@.len(),
            Err(e) => spec_attribute_value(s@, k, p as int) == Err::<(Seq<char>, int), ParseError>(e),
        },
{
    let n = s.len();
    match k {
        AttrKey::Port => {
            let e = digits_end_at(s, p);
            if p < e {
                Ok((string_from(s, p, e), e))
            } else {
                Err(ParseError::Cut(Problem::Port))
            }
        },
        AttrKey::Id => {
            let (q, e) = hex_run_at(s, p);
            if q == e || !char_is(s, e, ':') {
                return Err(ParseError::Cut(Problem::Id));
            }
            let (q2, e2) = hex_run_at(s, e + 1);
            if q2 == e2 {
                return Err(ParseError::Cut(Problem::Id));
            }
            let mut v = string_from(s, q, e);
            push_char(&mut v, ':');
            push_range(&mut v, s, q2, e2);
            assert(v@ =~= s@.subrange(q as int, e as int) + seq![':'] + s@.subrange(q2 as int, e2 as int));
            Ok((v, e2))
        },
        AttrKey::Vid | AttrKey::Pid => {
            let (q, e) = hex_run_at(s, p);
            if q < e {
                Ok((string_from(s, q, e), e))
            } else if k == AttrKey::Vid {
                Err(ParseError::Cut(Problem::VendorId))
            } else {
                Err(ParseError::Cut(Problem::ProductId))
            }
        },
        _ => string_at(s, p),
    }
}

/// One attribute at `p`.
pub fn attribute_at(s: &Vec<char>, p: usize) -> (r: Result<((AttrKey, String), usize), ParseError>)
    requires
        p <= s@.len(),
    ensures
        match r {
            Ok((kv, q)) => spec_attribute(s@, p as int) == Ok::<((AttrKey, Seq<char>), int), ParseError>(((kv.0, kv.1@), q as int)) && p < q <= s@.len(),
            Err(e) => spec_attribute(s@, p as int) == Err::<((AttrKey, Seq<char>), int), ParseError>(e),
        },
{
    let n = s.len();
    let a = spaces_end(s, p);
    match attribute_key_at(s, a) {
        Err(x) => Err(x),
        Ok((k, b)) => {
            let c = spaces_end(s, b);
            if !char_is(s, c, '=') {
                return Err(ParseError::Backtrack);
            }
            let d = spaces_end(s, c + 1);
            match attribute_value_at(s, k, d) {
                Ok((v, e)) => Ok(((k, v), e)),
                Err(x) => Err(x),
            }
        },
    }
}

/// The attributes that follow one at `p`, each after a comma.
fn attr_rest_at(s: &Vec<char>, p: usize) -> (r: Result<(Vec<(AttrKey, String)>, usize), ParseError>)
    requires
        p <= s@.len(),
    ensures
        match r {
            Ok((list, q)) => spec_attr_rest(s@, p as int) == Ok::<(AttrList, int), ParseError>((attr_view(list@), q as int)) && p <= q <= s@.len(),
            Err(e) => spec_attr_rest(s@, p as int) == Err::<(AttrList, int), ParseError>(e),
        },
    decreases s@.len() - p,
{
    let n = s.len();
    let a = spaces_end(s, p);
    if !char_is(s, a, ',') {
        let none: Vec<(AttrKey, String)> = Vec::new();
        assert(attr_view(none@) =~= seq![]);
        return Ok((none, p));
    }
    let b = spaces_end(s, a + 1);
    match attribute_at(s, b) {
        Ok((kv, e)) => match attr_rest_at(s, e) {
            Ok((rest, f)) => {
                let ghost tail = rest@;
                let mut list = rest;
                list.insert(0, kv);
                assert(attr_view(list@) =~= seq![(kv.0, kv.1@)] + attr_view(tail));
                Ok((list, f))
            },
            Err(x) => Err(x),
        },
        Err(ParseError::Backtrack) => {
            let none: Vec<(AttrKey, String)> = Vec::new();
            assert(attr_view(none@) =~= seq![]);
            Ok((none, p))
        },
        Err(x) => Err(x),
    }
}

/// No attribute is named twice in `list`.
fn keys_distinct_in(list: &Vec<(AttrKey, String)>) -> (r: bool)
    ensures
        r == keys_distinct(attr_view(list@)),
{
    let ghost v = attr_view(list@);
    let mut i: usize = 0;
    while i < list.len()
        invariant
            i <= list@.len(),
            v == attr_view(list@),
            forall|a: int, b: int| 0 <= a < b < list@.len() && a < i ==> #[trigger] v[a].0 != #[trigger] v[b].0,
        decreases list@.len() - i,
    {
        let mut j: usize = i + 1;
        while j < list.len()
            invariant
                i < list@.len(),
                i + 1 <= j <= list@.len(),
                v == attr_view(list@),
                forall|a: int, b: int| 0 <= a < b < list@.len() && a < i ==> #[trigger] v[a].0 != #[trigger] v[b].0,
                forall|b: int| i < b < j ==> v[i as int].0 != #[trigger] v[b].0,
            decreases list@.len() - j,
        {
            if list[i].0 == list[j].0 {
                assert(v[i as int].0 == v[j as int].0);
                return false;
            }
            j = j + 1;
        }
        i = i + 1;
    }
    true
}

/// A bracketed list of one or more attributes at `p`.
pub fn attributes_at(s: &Vec<char>, p: usize) -> (r: Result<(Vec<(AttrKey, String)>, usize), ParseError>)
    requires
        p <= s@.len(),
    ensures
        match r {
            Ok((list, q)) => spec_attributes(s@, p as int) == Ok::<(AttrList, int), ParseError>((attr_view(list@), q as int)) && p < q <= s@.len(),
            Err(e) => spec_attributes(s@, p as int) == Err::<(AttrList, int), ParseError>(e),
        },
{
    let n = s.len();
    let a = spaces_end(s, p);
    if !char_is(s, a, '[') {
        return Err(ParseError::Backtrack);
    }
    let b = spaces_end(s, a + 1);
    let (first, e) = match attribute_at(s, b) {
        Ok(x) => x,
        Err(x) => return Err(x),
    };
    let (rest, f) = match attr_rest_at(s, e) {
        Ok(x) => x,
        Err(x) => return Err(x),
    };
    let ghost tail = rest@;
    let mut list = rest;
    list.insert(0, first);
    assert(attr_view(list@) =~= seq![(first.0, first.1@)] + attr_view(tail));
    let c = spaces_end(s, f);
    if !char_is(s, c, ']') {
        return Err(ParseError::Backtrack);
    }
    if !keys_distinct_in(&list) {
        return Err(ParseError::Cut(Problem::DuplicateAttribute));
    }
    Ok((list, c + 1))
}

/// The index of the attribute named `k` in `list`, searching from the front.
fn find_key(list: &Vec<(AttrKey, String)>, k: AttrKey) -> (r: Option<usize>)
    ensures
        match r {
            Some(i) => i < list@.len() && list@[i as int].0 == k && lookup(attr_view(list@), k) == Some(list@[i as int].1@),
            None => lookup(attr_view(list@), k) is None,
        },
{
    let ghost v = attr_view(list@);
    let mut i: usize = 0;
    while i < list.len()
        invariant
            i <= list@.len(),
            v == attr_view(list@),
            lookup(v, k) == lookup_from(v, k, i as int),
        decreases list@.len() - i,
    {
        if list[i].0 == k {
            return Some(i);
        }
        i = i + 1;
    }
    None
}

/// `u8::from_str` on the characters `cs[lo..hi]`.
fn decimal_u8_of(cs: &Vec<char>, lo: usize, hi: usize) -> (r: Option<u8>)
    requires
        lo <= hi <= cs@.len(),
    ensures
        r == decimal_u8(cs@.subrange(lo as int, hi as int)),
{
    let ghost text = cs@.subrange(lo as int, hi as int);
    let start = if lo < hi && cs[lo] == '+' {
        lo + 1
    } else {
        lo
    };
    let ghost ds = cs@.subrange(start as int, hi as int);
    assert(ds == (if text.len() > 0 && text[0] == '+' {
        text.drop_first()
    } else {
        text
    }));
    if start == hi {
        return None;
    }
    let mut v: u32 = 0;
    let mut i = start;
    while i < hi
        invariant
            lo <= start <= i <= hi <= cs@.len(),
            ds == cs@.subrange(start as int, hi as int),
            text == cs@.subrange(lo as int, hi as int),
            ds == (if text.len() > 0 && text[0] == '+' {
                text.drop_first()
            } else {
                text
            }),
            forall|j: int| start <= j < i ==> is_digit(#[trigger] cs@[j]),
            v == (if digits_value(cs@.subrange(start as int, i as int)) < 256 {
                digits_value(cs@.subrange(start as int, i as int))
            } else {
                256
            }),
            0 <= digits_value(cs@.subrange(start as int, i as int)),
        decreases hi - i,
    {
        let c = cs[i];
        if !('0' <= c && c <= '9') {
            assert(ds[i - start] == cs@[i as int]);
            assert(!is_digit(ds[i - start]));
            assert(!all_digits(ds));
            return None;
        }
        let d: u32 = (c as u32) - 48;
        let ghost prefix = cs@.subrange(start as int, i + 1);
        assert(prefix.drop_last() =~= cs@.subrange(start as int, i as int));
        v = if v >= 256 || v * 10 + d >= 256 {
            256
        } else {
            v * 10 + d
        };
        i = i + 1;
    }
    assert(forall|j: int| 0 <= j < ds.len() ==> ds[j] == cs@[start + j]);
    if v >= 256 {
        None
    } else {
        Some(v as u8)
    }
}

/// The end of the `:`-separated field of `cs` that starts at `i`.
fn field_end_at(cs: &Vec<char>, i: usize) -> (r: usize)
    requires
        i <= cs@.len(),
    ensures
        r == field_end(cs@, i as int),
        i <= r <= cs@.len(),
{
    let mut j = i;
    while j < cs.len() && cs[j] != ':'
        invariant
            i <= j <= cs@.len(),
            field_end(cs@, i as int) == field_end(cs@, j as int),
        decreases cs@.len() - j,
    {
        j = j + 1;
    }
    j
}

/// An id value split at its first `:`, each half read as hexadecimal.
fn id_pair_of(v: &String) -> (r: Option<(u16, u16)>)
    ensures
        r == id_pair(v@),
{
    let cs = chars_of(v.as_str());
    let e = field_end_at(&cs, 0);
    if e >= cs.len() {
        return None;
    }
    let f = field_end_at(&cs, e + 1);
    match (radix16_of(&cs, 0, e), radix16_of(&cs, e + 1, f)) {
        (Some(a), Some(b)) => Some((a, b)),
        _ => None,
    }
}

/// The port constraint of an attribute list.
fn port_of_list(list: &Vec<(AttrKey, String)>) -> (r: Option<Option<PortNumber>>)
    ensures
        r == port_value(lookup(attr_view(list@), AttrKey::Port)),
{
    match find_key(list, AttrKey::Port) {
        Some(i) => {
            let cs = chars_of(list[i].1.as_str());
            assert(cs@.subrange(0, cs@.len() as int) =~= cs@);
            match decimal_u8_of(&cs, 0, cs.len()) {
                Some(n) => Some(Some(PortNumber(n))),
                None => None,
            }
        },
        None => Some(None),
    }
}

/// A vendor or product id constraint of an attribute list.
fn hex_of_list(list: &Vec<(AttrKey, String)>, k: AttrKey) -> (r: Option<Option<u16>>)
    ensures
        r == hex_id_value(lookup(attr_view(list@), k)),
{
    match find_key(list, k) {
        Some(i) => {
            let cs = chars_of(list[i].1.as_str());
            assert(cs@.subrange(0, cs@.len() as int) =~= cs@);
            match radix16_of(&cs, 0, cs.len()) {
                Some(n) => Some(Some(n)),
                None => None,
            }
        },
        None => Some(None),
    }
}

/// A string constraint of an attribute list.
fn text_of_list(list: &Vec<(AttrKey, String)>, k: AttrKey) -> (r: Option<String>)
    ensures
        match r {
            Some(t) => lookup(attr_view(list@), k) == Some(t@),
            None => lookup(attr_view(list@), k) is None,
        },
{
    match find_key(list, k) {
        Some(i) => Some(list[i].1.clone()),
        None => None,
    }
}

/// The predicate that a node type and an attribute list describe.
pub fn predicate_of(node_type: Option<NodeType>, list: &Vec<(AttrKey, String)>) -> (r: Result<Predicate, Problem>)
    ensures
        match r {
            Ok(pred) => predicate_from(node_type, attr_view(list@)) == Ok::<SpecPredicate, Problem>(pred@),
            Err(x) => predicate_from(node_type, attr_view(list@)) == Err::<SpecPredicate, Problem>(x),
        },
{
    let port_number = match port_of_list(list) {
        Some(port) => port,
        None => return Err(Problem::Port),
    };
    let vid = match hex_of_list(list, AttrKey::Vid) {
        Some(v) => v,
        None => return Err(Problem::Id),
    };
    let pid = match hex_of_list(list, AttrKey::Pid) {
        Some(v) => v,
        None => return Err(Problem::Id),
    };
    let (vendor_id, product_id) = match find_key(list, AttrKey::Id) {
        Some(i) => {
            if vid.is_some() || pid.is_some() {
                return Err(Problem::ConflictingId);
            }
            match id_pair_of(&list[i].1) {
                Some((a, b)) => (Some(a), Some(b)),
                None => return Err(Problem::Id),
            }
        },
        None => (vid, pid),
    };
    Ok(
        Predicate {
            node_type,
            port_number,
            vendor_id,
            product_id,
            serial_number: text_of_list(list, AttrKey::Serial),
            manufacturer: text_of_list(list, AttrKey::Manufacturer),
            product: text_of_list(list, AttrKey::Product),
        },
    )
}

/// A predicate at `p`, and whether it is marked as the subject.
pub fn predicate_at(s: &Vec<char>, p: usize) -> (r: Result<((Predicate, bool), usize), ParseError>)
    requires
        p <= s@.len(),
    ensures
        match r {
            Ok((ps, q)) => spec_predicate(s@, p as int) == Ok::<((SpecPredicate, bool), int), ParseError>(((ps.0@, ps.1), q as int)) && p < q <= s@.len(),
            Err(e) => spec_predicate(s@, p as int) == Err::<((SpecPredicate, bool), int), ParseError>(e),
        },
{
    let n = s.len();
    let a = spaces_end(s, p);
    let subject = char_is(s, a, '!');
    let b = spaces_end(s, if subject { a + 1 } else { a });
    let (node_type, c) = match node_type_at(s, b) {
        Ok(x) => x,
        Err(x) => return Err(x),
    };
    let d = spaces_end(s, c);
    let (list, e) = if char_is(s, d, '[') {
        match attributes_at(s, c) {
            Ok(x) => x,
            Err(x) => return Err(x),
        }
    } else {
        let none: Vec<(AttrKey, String)> = Vec::new();
        assert(attr_view(none@) =~= seq![]);
        (none, c)
    };
    match predicate_of(node_type, &list) {
        Ok(pred) => Ok(((pred, subject), e)),
        Err(problem) => Err(ParseError::Cut(problem)),
    }
}

/// The attributes of a predicate, by name, as written in its brackets.
pub struct Attributes {
    pub entries: Vec<(AttrKey, String)>,
}

impl View for Attributes {
    type V = AttrList;

    open spec fn view(&self) -> AttrList {
        attr_view(self.entries@)
    }
}

/// The attribute whose name is `text`.
pub open spec fn key_named(text: Seq<char>) -> Option<AttrKey> {
    if text == key_text(AttrKey::Port) {
        Some(AttrKey::Port)
    } else if text == key_text(AttrKey::Id) {
        Some(AttrKey::Id)
    } else if text == key_text(AttrKey::Vid) {
        Some(AttrKey::Vid)
    } else if text == key_text(AttrKey::Pid) {
        Some(AttrKey::Pid)
    } else if text == key_text(AttrKey::Serial) {
        Some(AttrKey::Serial)
    } else if text == key_text(AttrKey::Manufacturer) {
        Some(AttrKey::Manufacturer)
    } else if text == key_text(AttrKey::Product) {
        Some(AttrKey::Product)
    } else {
        None
    }
}

/// The attribute whose name is `name`.
pub fn key_of_name(name: &str) -> (r: Option<AttrKey>)
    ensures
        r == key_named(name@),
{
    let cs = chars_of(name);
    let n = cs.len();
    assert(cs@.subrange(0, n as int) =~= cs@);
    let port = ['p', 'o', 'r', 't'];
    let id = ['i', 'd'];
    let vid = ['v', 'i', 'd'];
    let pid = ['p', 'i', 'd'];
    let serial = ['s', 'e', 'r', 'i', 'a', 'l'];
    let manufacturer = ['m', 'a', 'n', 'u', 'f', 'a', 'c', 't', 'u', 'r', 'e', 'r'];
    let product = ['p', 'r', 'o', 'd', 'u', 'c', 't'];
    assert(port@ == key_text(AttrKey::Port));
    assert(id@ == key_text(AttrKey::Id));
    assert(vid@ == key_text(AttrKey::Vid));
    assert(pid@ == key_text(AttrKey::Pid));
    assert(serial@ == key_text(AttrKey::Serial));
    assert(manufacturer@ == key_text(AttrKey::Manufacturer));
    assert(product@ == key_text(AttrKey::Product));
    if n == 4 && lit_at(&cs, 0, &port) {
        Some(AttrKey::Port)
    } else if n == 2 && lit_at(&cs, 0, &id) {
        Some(AttrKey::Id)
    } else if n == 3 && lit_at(&cs, 0, &vid) {
        Some(AttrKey::Vid)
    } else if n == 3 && lit_at(&cs, 0, &pid) {
        Some(AttrKey::Pid)
    } else if n == 6 && lit_at(&cs, 0, &serial) {
        Some(AttrKey::Serial)
    } else if n == 12 && lit_at(&cs, 0, &manufacturer) {
        Some(AttrKey::Manufacturer)
    } else if n == 7 && lit_at(&cs, 0, &product) {
        Some(AttrKey::Product)
    } else {
        None
    }
}

/// The name of attribute `k`.
pub fn key_name(k: AttrKey) -> (r: &'static str)
    ensures
        r@ == key_text(k),
{
    match k {
        AttrKey::Port => {
            proof {
                reveal_strlit("port");
            }
            "port"
        },
        AttrKey::Id => {
            proof {
                reveal_strlit("id");
            }
            "id"
        },
        AttrKey::Vid => {
            proof {
                reveal_strlit("vid");
            }
            "vid"
        },
        AttrKey::Pid => {
            proof {
                reveal_strlit("pid");
            }
            "pid"
        },
        AttrKey::Serial => {
            proof {
                reveal_strlit("serial");
            }
            "serial"
        },
        AttrKey::Manufacturer => {
            proof {
                reveal_strlit("manufacturer");
            }
            "manufacturer"
        },
        AttrKey::Product => {
            proof {
                reveal_strlit("product");
            }
            "product"
        },
    }
}

impl Attributes {
    /// How many attributes there are.
    pub fn len(&self) -> (r: usize)
        ensures
            r == self@.len(),
    {
        self.entries.len()
    }

    /// The value of the attribute named `name`, if it was given.
    pub fn get(&self, name: &str) -> (r: Option<&String>)
        ensures
            match key_named(name@) {
                Some(k) => match lookup(self@, k) {
                    Some(v) => r matches Some(t) && t@ == v,
                    None => r is None,
                },
                None => r is None,
            },
    {
        match key_of_name(name) {
            Some(k) => match find_key(&self.entries, k) {
                Some(i) => Some(&self.entries[i].1),
                None => None,
            },
            None => None,
        }
    }
}

/// `input` after a parse that read its first `q` characters.
pub open spec fn rest_after(input: Seq<char>, q: int) -> Seq<char> {
    input.subrange(q, input.len() as int)
}

/// A node type at the start of `input`: `*` for any, `hub` or `device`.
pub fn parse_node_type(input: &mut &str) -> (r: Result<Option<NodeType>, ParseError>)
    ensures
        match spec_node_type(old(input)@, 0) {
            Ok((v, q)) => r == Ok::<Option<NodeType>, ParseError>(v) && final(input)@ == rest_after(old(input)@, q),
            Err(e) => r == Err::<Option<NodeType>, ParseError>(e) && final(input)@ == old(input)@,
        },
{
    let s = chars_of(*input);
    match node_type_at(&s, 0) {
        Ok((v, q)) => {
            advance(input, q);
            Ok(v)
        },
        Err(e) => Err(e),
    }
}

/// An attribute name at the start of `input`.
pub fn parse_attribute_key(input: &mut &str) -> (r: Result<&'static str, ParseError>)
    ensures
        match spec_attribute_key(old(input)@, 0) {
            Ok((k, q)) => r matches Ok(name) && name@ == key_text(k) && final(input)@ == rest_after(old(input)@, q),
            Err(e) => r == Err::<&'static str, ParseError>(e) && final(input)@ == old(input)@,
        },
{
    let s = chars_of(*input);
    match attribute_key_at(&s, 0) {
        Ok((k, q)) => {
            advance(input, q);
            Ok(key_name(k))
        },
        Err(e) => Err(e),
    }
}

/// One attribute, `name = value`, at the start of `input`: its name and the
/// text of its value.
pub fn parse_attribute(input: &mut &str) -> (r: Result<(&'static str, String), ParseError>)
    ensures
        match spec_attribute(old(input)@, 0) {
            Ok((kv, q)) => r matches Ok((name, value)) && name@ == key_text(kv.0) && value@ == kv.1 && final(input)@ == rest_after(old(input)@, q),
            Err(e) => r matches Err(x) && x == e && final(input)@ == old(input)@,
        },
{
    let s = chars_of(*input);
    match attribute_at(&s, 0) {
        Ok(((k, v), q)) => {
            advance(input, q);
            Ok((key_name(k), v))
        },
        Err(e) => Err(e),
    }
}

/// A bracketed list of attributes at the start of `input`.
pub fn parse_attributes(input: &mut &str) -> (r: Result<Attributes, ParseError>)
    ensures
        match spec_attributes(old(input)@, 0) {
            Ok((list, q)) => r matches Ok(a) && a@ == list && final(input)@ == rest_after(old(input)@, q),
            Err(e) => r matches Err(x) && x == e && final(input)@ == old(input)@,
        },
{
    let s = chars_of(*input);
    match attributes_at(&s, 0) {
        Ok((entries, q)) => {
            advance(input, q);
            Ok(Attributes { entries })
        },
        Err(e) => Err(e),
    }
}

/// An optional vendor or product id read as hexadecimal by
/// `u16::from_str_radix`; text that does not read as one is an `id` error.
pub fn parse_hex_id(input: Option<&String>) -> (r: Result<Option<u16>, ParseError>)
    ensures
        match hex_id_value(
            match input {
                Some(t) => Some(t@),
                None => None,
            },
        ) {
            Some(v) => r == Ok::<Option<u16>, ParseError>(v),
            None => r == Err::<Option<u16>, ParseError>(ParseError::Cut(Problem::Id)),
        },
{
    match input {
        None => Ok(None),
        Some(t) => {
            let cs = chars_of(t.as_str());
            assert(cs@.subrange(0, cs@.len() as int) =~= cs@);
            match radix16_of(&cs, 0, cs.len()) {
                Some(v) => Ok(Some(v)),
                None => Err(ParseError::Cut(Problem::Id)),
            }
        },
    }
}

/// A predicate at the start of `input`, and whether it is marked as the
/// subject of its selector with `!`.
pub fn parse_predicate(input: &mut &str) -> (r: Result<(Predicate, bool), ParseError>)
    ensures
        match spec_predicate(old(input)@, 0) {
            Ok((ps, q)) => r matches Ok((pred, subject)) && pred@ == ps.0 && subject == ps.1 && final(input)@ == rest_after(old(input)@, q),
            Err(e) => r matches Err(x) && x == e && final(input)@ == old(input)@,
        },
{
    let s = chars_of(*input);
    match predicate_at(&s, 0) {
        Ok((ps, q)) => {
            advance(input, q);
            Ok(ps)
        },
        Err(e) => Err(e),
    }
}

} // verus!
