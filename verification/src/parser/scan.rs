//! Scanning primitives shared by the parsers: character classes, runs of
//! characters, literals, and the way a parse fails.

use vstd::prelude::*;

verus! {

/// Why a parse failed where it committed to an alternative.
#[derive(Debug, Clone, Copy, PartialEq, Eq, Structural)]
pub enum Problem {
    /// A port number: missing digits, or a value above 255.
    Port,
    /// A combined vendor:product id.
    Id,
    /// A vendor id.
    VendorId,
    /// A product id.
    ProductId,
    /// A quoted string without its closing quote.
    QuotedString,
    /// An attribute given twice.
    DuplicateAttribute,
    /// Both `id` and `vid` or `pid` given.
    ConflictingId,
    /// More than one subject (`!`) in one chain.
    DuplicateSubject,
    /// Input left over after a selector.
    UnexpectedInput,
}

/// How a parse fails. A `Backtrack` failure lets an enclosing optional part
/// or alternative try something else; a `Cut` failure ends the whole parse.
#[derive(Debug, Clone, Copy, PartialEq, Eq, Structural)]
pub enum ParseError {
    Backtrack,
    Cut(Problem),
}

/// A parse result: a value and the position just after it, or a failure.
pub type SpecResult<A> = Result<(A, int), ParseError>;

/// The exec result `r` is the spec result `spec`, positions as integers.
pub open spec fn agrees<A>(r: Result<(A, usize), ParseError>, spec: SpecResult<A>) -> bool {
    match r {
        Ok((v, q)) => spec == Ok::<(A, int), ParseError>((v, q as int)),
        Err(e) => spec == Err::<(A, int), ParseError>(e),
    }
}

/// A space or a tab.
pub open spec fn is_space(c: char) -> bool {
    c == ' ' || c == '\t'
}

/// A decimal digit.
pub open spec fn is_digit(c: char) -> bool {
    '0' <= c <= '9'
}

/// A hexadecimal digit, in either case.
pub open spec fn is_hex(c: char) -> bool {
    ||| '0' <= c <= '9'
    ||| 'a' <= c <= 'f'
    ||| 'A' <= c <= 'F'
}

/// `s` has the character `c` at `p`.
pub open spec fn char_at(s: Seq<char>, p: int, c: char) -> bool {
    0 <= p < s.len() && s[p] == c
}

/// `s` has the characters `lit` starting at `p`.
pub open spec fn starts_with(s: Seq<char>, p: int, lit: Seq<char>) -> bool {
    0 <= p && p + lit.len() <= s.len() && s.subrange(p, p + lit.len()) == lit
}

/// The end of the run of spaces and tabs that starts at `p`.
pub open spec fn skip_spaces(s: Seq<char>, p: int) -> int
    decreases s.len() - p,
{
    if 0 <= p < s.len() && is_space(s[p]) {
        skip_spaces(s, p + 1)
    } else {
        p
    }
}

/// The end of the run of decimal digits that starts at `p`.
pub open spec fn digits_end(s: Seq<char>, p: int) -> int
    decreases s.len() - p,
{
    if 0 <= p < s.len() && is_digit(s[p]) {
        digits_end(s, p + 1)
    } else {
        p
    }
}

/// The end of the run of at most `max` hexadecimal digits that starts at `p`.
pub open spec fn hex_end(s: Seq<char>, p: int, max: int) -> int
    decreases max,
{
    if max > 0 && 0 <= p < s.len() && is_hex(s[p]) {
        hex_end(s, p + 1, max - 1)
    } else {
        p
    }
}

/// A position after a `0x` prefix at `p`, if there is one.
pub open spec fn skip_hex_prefix(s: Seq<char>, p: int) -> int {
    if starts_with(s, p, seq!['0', 'x']) {
        p + 2
    } else {
        p
    }
}

pub proof fn lemma_skip_spaces(s: Seq<char>, p: int)
    requires
        0 <= p <= s.len(),
    ensures
        p <= skip_spaces(s, p) <= s.len(),
        skip_spaces(s, p) < s.len() ==> !is_space(s[skip_spaces(s, p)]),
    decreases s.len() - p,
{
    if p < s.len() && is_space(s[p]) {
        lemma_skip_spaces(s, p + 1);
    }
}

/// Whether `s` has `c` at `p`.
pub fn char_is(s: &Vec<char>, p: usize, c: char) -> (r: bool)
    ensures
        r == char_at(s@, p as int, c),
{
    p < s.len() && s[p] == c
}

/// Whether `s` has the characters `lit` at `p`.
pub fn lit_at(s: &Vec<char>, p: usize, lit: &[char]) -> (r: bool)
    requires
        p <= s@.len(),
    ensures
        r == starts_with(s@, p as int, lit@),
{
    let n = s.len();
    if lit.len() > n - p {
        return false;
    }
    let mut i: usize = 0;
    while i < lit.len()
        invariant
            p + lit@.len() <= s@.len(),
            s@.len() <= usize::MAX,
            i <= lit@.len(),
            forall|j: int| 0 <= j < i ==> s@[p + j] == lit@[j],
        decreases lit@.len() - i,
    {
        assert(p + i < s@.len());
        if s[p + i] != lit[i] {
            assert(s@.subrange(p as int, p + lit@.len())[i as int] != lit@[i as int]);
            return false;
        }
        i = i + 1;
    }
    assert(s@.subrange(p as int, p + lit@.len()) =~= lit@);
    true
}

/// The end of the run of spaces and tabs that starts at `p`.
pub fn spaces_end(s: &Vec<char>, p: usize) -> (r: usize)
    requires
        p <= s@.len(),
    ensures
        r == skip_spaces(s@, p as int),
        p <= r <= s@.len(),
{
    proof {
        lemma_skip_spaces(s@, p as int);
    }
    let mut i = p;
    while i < s.len() && (s[i] == ' ' || s[i] == '\t')
        invariant
            p <= i <= s@.len(),
            skip_spaces(s@, i as int) == skip_spaces(s@, p as int),
        decreases s@.len() - i,
    {
        i = i + 1;
    }
    i
}

/// The end of the run of decimal digits that starts at `p`.
pub fn digits_end_at(s: &Vec<char>, p: usize) -> (r: usize)
    requires
        p <= s@.len(),
    ensures
        r == digits_end(s@, p as int),
        p <= r <= s@.len(),
        forall|j: int| p <= j < r ==> is_digit(#[trigger] s@[j]),
{
    let mut i = p;
    while i < s.len() && '0' <= s[i] && s[i] <= '9'
        invariant
            p <= i <= s@.len(),
            digits_end(s@, i as int) == digits_end(s@, p as int),
            forall|j: int| p <= j < i ==> is_digit(#[trigger] s@[j]),
        decreases s@.len() - i,
    {
        i = i + 1;
    }
    i
}

/// Whether `c` is a hexadecimal digit.
pub fn hex_digit_char(c: char) -> (r: bool)
    ensures
        r == is_hex(c),
{
    ('0' <= c && c <= '9') || ('a' <= c && c <= 'f') || ('A' <= c && c <= 'F')
}

/// The end of the run of at most `max` hexadecimal digits that starts at `p`.
pub fn hex_end_at(s: &Vec<char>, p: usize, max: usize) -> (r: usize)
    requires
        p <= s@.len(),
    ensures
        r == hex_end(s@, p as int, max as int),
        p <= r <= s@.len(),
        r - p <= max,
        forall|j: int| p <= j < r ==> is_hex(#[trigger] s@[j]),
{
    let mut i = p;
    let mut left = max;
    while left > 0 && i < s.len() && hex_digit_char(s[i])
        invariant
            p <= i <= s@.len(),
            left <= max,
            i - p == max - left,
            hex_end(s@, i as int, left as int) == hex_end(s@, p as int, max as int),
            forall|j: int| p <= j < i ==> is_hex(#[trigger] s@[j]),
        decreases left,
    {
        i = i + 1;
        left = left - 1;
    }
    i
}

/// The position after a `0x` prefix at `p`, if there is one.
pub fn hex_prefix_end(s: &Vec<char>, p: usize) -> (r: usize)
    requires
        p <= s@.len(),
    ensures
        r == skip_hex_prefix(s@, p as int),
        p <= r <= s@.len(),
{
    let n = s.len();
    let prefix = ['0', 'x'];
    assert(prefix@ == seq!['0', 'x']);
    if lit_at(s, p, &prefix) {
        p + 2
    } else {
        p
    }
}

} // verus!
