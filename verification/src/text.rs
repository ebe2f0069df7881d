//! Building strings character by character, and the decimal and hexadecimal
//! spelling of numbers.

use vstd::prelude::*;

verus! {

/// `String::push`: appends the character `c` to `s`.
#[verifier::external_body]
pub(crate) fn push_char(s: &mut String, c: char)
    ensures
        final(s)@ == old(s)@.push(c),
{
    s.push(c);
}

/// Appends the characters `cs` to `s`.
pub fn push_chars(s: &mut String, cs: &[char])
    ensures
        final(s)@ == old(s)@ + cs@,
{
    let ghost start = s@;
    let mut i: usize = 0;
    while i < cs.len()
        invariant
            i <= cs@.len(),
            s@ == start + cs@.subrange(0, i as int),
        decreases cs@.len() - i,
    {
        push_char(s, cs[i]);
        i = i + 1;
        proof {
            assert(cs@.subrange(0, i as int) =~= cs@.subrange(0, i - 1).push(cs@[i - 1]));
        }
    }
    assert(cs@.subrange(0, cs@.len() as int) =~= cs@);
}

/// Appends the characters `cs[lo..hi]` to `s`.
pub fn push_range(s: &mut String, cs: &Vec<char>, lo: usize, hi: usize)
    requires
        lo <= hi <= cs@.len(),
    ensures
        final(s)@ == old(s)@ + cs@.subrange(lo as int, hi as int),
{
    let ghost start = s@;
    let mut i: usize = lo;
    while i < hi
        invariant
            lo <= i <= hi <= cs@.len(),
            s@ == start + cs@.subrange(lo as int, i as int),
        decreases hi - i,
    {
        push_char(s, cs[i]);
        i = i + 1;
        proof {
            assert(cs@.subrange(lo as int, i as int) =~= cs@.subrange(lo as int, i - 1).push(cs@[i - 1]));
        }
    }
}

/// A string holding the characters `cs[lo..hi]`.
pub fn string_from(cs: &Vec<char>, lo: usize, hi: usize) -> (r: String)
    requires
        lo <= hi <= cs@.len(),
    ensures
        r@ == cs@.subrange(lo as int, hi as int),
{
    let mut r = String::new();
    push_range(&mut r, cs, lo, hi);
    assert(Seq::<char>::empty() + cs@.subrange(lo as int, hi as int) =~= cs@.subrange(lo as int, hi as int));
    r
}

/// Appends the characters of `t` to `s`.
pub fn push_str(s: &mut String, t: &str)
    ensures
        final(s)@ == old(s)@ + t@,
{
    let cs = chars_of(t);
    push_range(s, &cs, 0, cs.len());
    assert(cs@.subrange(0, cs@.len() as int) =~= cs@);
}

/// The characters of `s`, one by one.
pub fn chars_of(s: &str) -> (r: Vec<char>)
    ensures
        r@ == s@,
{
    let n = s.unicode_len();
    let mut r: Vec<char> = Vec::new();
    let mut i: usize = 0;
    while i < n
        invariant
            n == s@.len(),
            i <= n,
            r@ == s@.subrange(0, i as int),
        decreases n - i,
    {
        r.push(s.get_char(i));
        i = i + 1;
        proof {
            assert(s@.subrange(0, i as int) =~= s@.subrange(0, i - 1).push(s@[i - 1]));
        }
    }
    assert(s@.subrange(0, n as int) =~= s@);
    r
}

/// The decimal digit `d`.
pub open spec fn digit_char(d: nat) -> char {
    ((d + 48) as u8) as char
}

/// The lower-case hexadecimal digit `d`.
pub open spec fn hex_char(d: nat) -> char {
    if d < 10 {
        digit_char(d)
    } else {
        ((d + 87) as u8) as char
    }
}

/// `n` in decimal, without leading zeros.
pub open spec fn decimal(n: nat) -> Seq<char>
    decreases n,
{
    if n < 10 {
        seq![digit_char(n)]
    } else {
        decimal(n / 10).push(digit_char(n % 10))
    }
}

/// `v` as four lower-case hexadecimal digits, zero-padded.
pub open spec fn hex4(v: u16) -> Seq<char> {
    seq![hex_char((v / 4096) as nat), hex_char(((v / 256) % 16) as nat), hex_char(((v / 16) % 16) as nat), hex_char((v % 16) as nat)]
}

/// Appends `v` in decimal.
pub fn push_decimal(s: &mut String, v: u16)
    ensures
        final(s)@ == old(s)@ + decimal(v as nat),
    decreases v,
{
    if v >= 10 {
        push_decimal(s, v / 10);
    }
    push_char(s, (((v % 10) as u8) + 48) as char);
    assert(decimal(v as nat) =~= if v < 10 {
        seq![digit_char(v as nat)]
    } else {
        decimal((v / 10) as nat).push(digit_char((v % 10) as nat))
    });
}

fn hex_digit(d: u16) -> (c: char)
    requires
        d < 16,
    ensures
        c == hex_char(d as nat),
{
    if d < 10 {
        ((d as u8) + 48) as char
    } else {
        ((d as u8) + 87) as char
    }
}

/// Appends `v` as four lower-case hexadecimal digits.
pub fn push_hex4(s: &mut String, v: u16)
    ensures
        final(s)@ == old(s)@ + hex4(v),
{
    let ghost start = s@;
    push_char(s, hex_digit(v / 4096));
    push_char(s, hex_digit((v / 256) % 16));
    push_char(s, hex_digit((v / 16) % 16));
    push_char(s, hex_digit(v % 16));
    assert(s@ =~= start + hex4(v));
}

/// A character with the Unicode `White_Space` property, the ones that
/// `str::trim` removes.
pub open spec fn is_white_space(c: char) -> bool {
    ||| '\u{9}' <= c <= '\u{d}'
    ||| c == ' '
    ||| c == '\u{85}'
    ||| c == '\u{a0}'
    ||| c == '\u{1680}'
    ||| '\u{2000}' <= c <= '\u{200a}'
    ||| c == '\u{2028}'
    ||| c == '\u{2029}'
    ||| c == '\u{202f}'
    ||| c == '\u{205f}'
    ||| c == '\u{3000}'
}

/// The first position from `i` on that does not hold white space.
pub open spec fn trim_start(s: Seq<char>, i: int) -> int
    decreases s.len() - i,
{
    if 0 <= i < s.len() && is_white_space(s[i]) {
        trim_start(s, i + 1)
    } else {
        i
    }
}

/// The end of `s[..j]` once the white space at its end, down to `lo`, is
/// taken off.
pub open spec fn trim_end(s: Seq<char>, j: int, lo: int) -> int
    decreases j,
{
    if 0 <= lo < j <= s.len() && is_white_space(s[j - 1]) {
        trim_end(s, j - 1, lo)
    } else {
        j
    }
}

/// `s` without its leading and trailing white space.
pub open spec fn trimmed(s: Seq<char>) -> Seq<char> {
    let lo = trim_start(s, 0);
    s.subrange(lo, trim_end(s, s.len() as int, lo))
}

/// Trimming the start stops at the end or at a character that is not
/// white space.
pub proof fn lemma_trim_start(s: Seq<char>, i: int)
    requires
        0 <= i <= s.len(),
    ensures
        i <= trim_start(s, i) <= s.len(),
        trim_start(s, i) < s.len() ==> !is_white_space(s[trim_start(s, i)]),
    decreases s.len() - i,
{
    if i < s.len() && is_white_space(s[i]) {
        lemma_trim_start(s, i + 1);
    }
}

/// Trimming the end stops at `lo` or after a character that is not white
/// space.
pub proof fn lemma_trim_end(s: Seq<char>, j: int, lo: int)
    requires
        0 <= lo <= j <= s.len(),
    ensures
        lo <= trim_end(s, j, lo) <= j,
        trim_end(s, j, lo) > lo ==> !is_white_space(s[trim_end(s, j, lo) - 1]),
    decreases j,
{
    if lo < j && is_white_space(s[j - 1]) {
        lemma_trim_end(s, j - 1, lo);
    }
}

/// Trimming twice is trimming once.
pub proof fn lemma_trimmed_twice(s: Seq<char>)
    ensures
        trimmed(trimmed(s)) == trimmed(s),
        trimmed(s).len() <= s.len(),
{
    let lo = trim_start(s, 0);
    lemma_trim_start(s, 0);
    let hi = trim_end(s, s.len() as int, lo);
    lemma_trim_end(s, s.len() as int, lo);
    let t = s.subrange(lo, hi);
    if t.len() > 0 {
        assert(t[0] == s[lo]);
        assert(t[t.len() - 1] == s[hi - 1]);
        assert(trim_start(t, 0) == 0);
        assert(trim_end(t, t.len() as int, 0) == t.len());
        assert(t.subrange(0, t.len() as int) =~= t);
    } else {
        assert(trim_start(t, 0) == 0);
        assert(trim_end(t, 0, 0) == 0);
        assert(t.subrange(0, 0) =~= t);
    }
}

fn white_space_char(c: char) -> (r: bool)
    ensures
        r == is_white_space(c),
{
    ('\u{9}' <= c && c <= '\u{d}') || c == ' ' || c == '\u{85}' || c == '\u{a0}' || c == '\u{1680}'
        || ('\u{2000}' <= c && c <= '\u{200a}') || c == '\u{2028}' || c == '\u{2029}' || c
        == '\u{202f}' || c == '\u{205f}' || c == '\u{3000}'
}

/// Where the text of `cs` starts and ends once leading and trailing white
/// space is taken off.
pub fn trim_bounds(cs: &Vec<char>) -> (r: (usize, usize))
    ensures
        r.0 == trim_start(cs@, 0),
        r.1 == trim_end(cs@, cs@.len() as int, r.0 as int),
        r.0 <= r.1 <= cs@.len(),
{
    let n = cs.len();
    let mut lo: usize = 0;
    while lo < n && white_space_char(cs[lo])
        invariant
            lo <= n == cs@.len(),
            trim_start(cs@, 0) == trim_start(cs@, lo as int),
        decreases n - lo,
    {
        lo = lo + 1;
    }
    let mut hi: usize = n;
    while lo < hi && white_space_char(cs[hi - 1])
        invariant
            lo <= hi <= n == cs@.len(),
            trim_end(cs@, n as int, lo as int) == trim_end(cs@, hi as int, lo as int),
        decreases hi,
    {
        hi = hi - 1;
    }
    (lo, hi)
}

} // verus!
