//! The selector grammar: elements joined by combinators, where an element is
//! a predicate or a parenthesized sub-selector.
//!
//! ```text
//! selector   := space* element (combinator element)* space*
//! element    := space* ( '(' space* selector space* ')' | predicate )
//! combinator := space* '>' | space* '%>' | space* '%' | space+
//! ```
//!
//! At most one predicate of a chain may be marked with `!`, and what follows a
//! selector must be the end of the input or a `)`.

use vstd::prelude::*;

use crate::parser::predicate::{predicate_at, rest_after, spec_predicate};
use crate::parser::scan::{
    agrees, char_at, char_is, lit_at, skip_spaces, spaces_end, starts_with, ParseError, Problem,
    SpecResult,
};
use crate::parser::util::advance;
use crate::selector::{
    chain_value, expr_view, lemma_chain_push, parsed_shape, shaped_chain, shaped_expression,
    wf_chain, wf_expression, wf_selector, Combinator, Expression, Selector, SpecExpression,
    SpecSelector,
};
use crate::text::chars_of;

verus! {

/// The combinator at `p`: `>`, `%>` or `%` after optional spaces, or else
/// one or more spaces.
pub open spec fn spec_combinator(s: Seq<char>, p: int) -> SpecResult<Combinator> {
    let a = skip_spaces(s, p);
    if char_at(s, a, '>') {
        Ok((Combinator::Children, a + 1))
    } else if starts_with(s, a, seq!['%', '>']) {
        Ok((Combinator::CurrentAndChildren, a + 2))
    } else if char_at(s, a, '%') {
        Ok((Combinator::CurrentAndDescendants, a + 1))
    } else if p < a {
        Ok((Combinator::Descendants, a))
    } else {
        Err(ParseError::Backtrack)
    }
}

/// One element of a chain at `p`, and whether it is marked as the subject:
/// a parenthesized sub-selector (never the subject itself), or a predicate.
pub open spec fn spec_element(s: Seq<char>, p: int) -> SpecResult<(SpecExpression, bool)>
    decreases s.len() - p, 1int,
{
    if !(0 <= p <= s.len()) {
        Err(ParseError::Backtrack)
    } else {
        let a = skip_spaces(s, p);
        if char_at(s, a, '(') {
            let b = skip_spaces(s, a + 1);
            if !(p < b <= s.len()) {
                Err(ParseError::Backtrack)
            } else {
                match spec_selector(s, b) {
                    Err(x) => Err(x),
                    Ok((sel, c)) => {
                        let d = skip_spaces(s, c);
                        if char_at(s, d, ')') {
                            Ok(((SpecExpression::Selector(sel), false), d + 1))
                        } else {
                            Err(ParseError::Backtrack)
                        }
                    },
                }
            }
        } else {
            match spec_predicate(s, a) {
                Ok(((pred, subject), e)) => Ok(((SpecExpression::Predicate(pred), subject), e)),
                Err(x) => Err(x),
            }
        }
    }
}

/// The rest of a chain from `p` on, given the elements read so far and the
/// subject among them: each further element follows a combinator, and a
/// combinator that no element follows is left unread.
pub open spec fn spec_chain_from(
    s: Seq<char>,
    p: int,
    chain: Seq<(Combinator, SpecExpression)>,
    subject: Option<usize>,
) -> Result<(Seq<(Combinator, SpecExpression)>, Option<usize>, int), ParseError>
    decreases s.len() - p, 2int,
{
    if !(0 <= p <= s.len()) {
        Err(ParseError::Backtrack)
    } else {
        match spec_combinator(s, p) {
            Err(ParseError::Backtrack) => Ok((chain, subject, p)),
            Err(x) => Err(x),
            Ok((combinator, q)) => if !(p < q <= s.len()) {
                Ok((chain, subject, p))
            } else {
                match spec_element(s, q) {
                    Err(ParseError::Backtrack) => Ok((chain, subject, p)),
                    Err(x) => Err(x),
                    Ok(((expr, marked), e)) => if !(q < e <= s.len()) {
                        Ok((chain, subject, p))
                    } else if marked && subject is Some {
                        Err(ParseError::Cut(Problem::DuplicateSubject))
                    } else {
                        spec_chain_from(
                            s,
                            e,
                            chain.push((combinator, expr)),
                            if marked {
                                Some(chain.len() as usize)
                            } else {
                                subject
                            },
                        )
                    },
                }
            },
        }
    }
}

/// A selector at `p`: a first element, joined to it by `%`, then the rest
/// of its chain. After trailing spaces the input must end or go on with `)`.
pub open spec fn spec_selector(s: Seq<char>, p: int) -> SpecResult<SpecSelector>
    decreases s.len() - p, 3int,
{
    if !(0 <= p <= s.len()) {
        Err(ParseError::Backtrack)
    } else {
        let a = skip_spaces(s, p);
        if !(p <= a <= s.len()) {
            Err(ParseError::Backtrack)
        } else {
            match spec_element(s, a) {
                Err(x) => Err(x),
                Ok(((first, marked), e)) => if !(a < e <= s.len()) {
                    Err(ParseError::Backtrack)
                } else {
                    match spec_chain_from(
                        s,
                        e,
                        seq![(Combinator::CurrentAndDescendants, first)],
                        if marked {
                            Some(0usize)
                        } else {
                            None
                        },
                    ) {
                        Err(x) => Err(x),
                        Ok((chain, subject, f)) => {
                            let g = skip_spaces(s, f);
                            if g < s.len() && s[g] != ')' {
                                Err(ParseError::Cut(Problem::UnexpectedInput))
                            } else {
                                Ok((SpecSelector { chain, subject_index: subject }, g))
                            }
                        },
                    }
                },
            }
        }
    }
}

/// The first `n` elements of a chain are well formed iff each of them is.
pub proof fn lemma_wf_chain_all(c: Seq<(Combinator, SpecExpression)>, n: int)
    requires
        0 <= n <= c.len(),
    ensures
        wf_chain(c, n) == forall|i: int| 0 <= i < n ==> #[trigger] wf_expression(c[i].1),
    decreases n,
{
    if n > 0 {
        lemma_wf_chain_all(c, n - 1);
        assert(wf_chain(c, n) == (wf_chain(c, n - 1) && wf_expression(c[n - 1].1)));
        if forall|i: int| 0 <= i < n ==> #[trigger] wf_expression(c[i].1) {
            assert(wf_expression(c[n - 1].1));
            assert forall|i: int| 0 <= i < n - 1 implies #[trigger] wf_expression(c[i].1) by {}
        }
    }
}

/// The first `n` elements of a chain have the parsed shape iff each of
/// them has.
pub proof fn lemma_shaped_chain_all(c: Seq<(Combinator, SpecExpression)>, n: int)
    requires
        0 <= n <= c.len(),
    ensures
        shaped_chain(c, n) == forall|i: int| 0 <= i < n ==> #[trigger] shaped_expression(c[i].1),
    decreases n,
{
    if n > 0 {
        lemma_shaped_chain_all(c, n - 1);
        assert(shaped_chain(c, n) == (shaped_chain(c, n - 1) && shaped_expression(c[n - 1].1)));
        if forall|i: int| 0 <= i < n ==> #[trigger] shaped_expression(c[i].1) {
            assert(shaped_expression(c[n - 1].1));
            assert forall|i: int| 0 <= i < n - 1 implies #[trigger] shaped_expression(c[i].1) by {}
        }
    }
}

proof fn lemma_element_wf(s: Seq<char>, p: int)
    requires
        s.len() <= usize::MAX,
    ensures
        spec_element(s, p) matches Ok(((e, marked), _)) ==> wf_expression(e) && shaped_expression(e) && (
        marked ==> e is Predicate),
    decreases s.len() - p, 1int,
{
    if 0 <= p <= s.len() {
        let a = skip_spaces(s, p);
        if char_at(s, a, '(') {
            let b = skip_spaces(s, a + 1);
            if p < b <= s.len() {
                law_parsed_selector_wf(s, b);
            }
        }
    }
}

proof fn lemma_chain_from_wf(
    s: Seq<char>,
    p: int,
    chain: Seq<(Combinator, SpecExpression)>,
    subject: Option<usize>,
)
    requires
        s.len() <= usize::MAX,
        0 < chain.len() <= p,
        forall|i: int| 0 <= i < chain.len() ==> #[trigger] wf_expression(chain[i].1),
        forall|i: int| 0 <= i < chain.len() ==> #[trigger] shaped_expression(chain[i].1),
        subject matches Some(k) ==> k < chain.len() && chain[k as int].1 is Predicate,
    ensures
        spec_chain_from(s, p, chain, subject) matches Ok((c, subj, _)) ==> (forall|i: int|
            0 <= i < c.len() ==> #[trigger] wf_expression(c[i].1)) && (forall|i: int|
            0 <= i < c.len() ==> #[trigger] shaped_expression(c[i].1)) && 0 < c.len() && c[0] == chain[0]
            && (subj matches Some(k) ==> k < c.len() && c[k as int].1 is Predicate),
    decreases s.len() - p, 2int,
{
    if 0 <= p <= s.len() {
        if let Ok((combinator, q)) = spec_combinator(s, p) {
            if p < q <= s.len() {
                if let Ok(((expr, marked), e)) = spec_element(s, q) {
                    if q < e <= s.len() && !(marked && subject is Some) {
                        lemma_element_wf(s, q);
                        let next = chain.push((combinator, expr));
                        assert forall|i: int| 0 <= i < next.len() implies #[trigger] wf_expression(next[i].1) by {
                            if i < chain.len() {
                                assert(next[i] == chain[i]);
                            }
                        }
                        assert forall|i: int| 0 <= i < next.len() implies #[trigger] shaped_expression(next[i].1) by {
                            if i < chain.len() {
                                assert(next[i] == chain[i]);
                            }
                        }
                        let next_subject = if marked {
                            Some(chain.len() as usize)
                        } else {
                            subject
                        };
                        if let Some(k) = subject {
                            assert(next[k as int] == chain[k as int]);
                        }
                        assert(next[0] == chain[0]);
                        lemma_chain_from_wf(s, e, next, next_subject);
                    }
                }
            }
        }
    }
}

/// What the grammar reads as a selector is well formed, and has the shape
/// that the syntax gives: its chain is not empty and starts with `%`, its
/// subject, where it has one, is a predicate of its chain, and so
/// throughout its sub-selectors. (The input is taken to fit in memory.)
pub proof fn law_parsed_selector_wf(s: Seq<char>, p: int)
    requires
        s.len() <= usize::MAX,
    ensures
        spec_selector(s, p) matches Ok((sel, _)) ==> wf_selector(sel) && parsed_shape(sel),
    decreases s.len() - p, 3int,
{
    if 0 <= p <= s.len() {
        let a = skip_spaces(s, p);
        if p <= a <= s.len() {
            lemma_element_wf(s, a);
            if let Ok(((first, marked), e)) = spec_element(s, a) {
                if a < e <= s.len() {
                    let start = seq![(Combinator::CurrentAndDescendants, first)];
                    assert forall|i: int| 0 <= i < start.len() implies #[trigger] wf_expression(start[i].1) by {}
                    assert forall|i: int| 0 <= i < start.len() implies #[trigger] shaped_expression(start[i].1) by {}
                    lemma_chain_from_wf(s, e, start, if marked { Some(0usize) } else { None });
                    if let Ok((chain, subject, f)) = spec_chain_from(s, e, start, if marked { Some(0usize) } else { None }) {
                        lemma_wf_chain_all(chain, chain.len() as int);
                        lemma_shaped_chain_all(chain, chain.len() as int);
                    }
                }
            }
        }
    }
}

/// The combinator at `p`.
pub fn combinator_at(s: &Vec<char>, p: usize) -> (r: Result<(Combinator, usize), ParseError>)
    requires
        p <= s@.len(),
    ensures
        agrees(r, spec_combinator(s@, p as int)),
        r matches Ok((_, q)) ==> p < q <= s@.len(),
{
    let n = s.len();
    let a = spaces_end(s, p);
    let marker = ['%', '>'];
    assert(marker@ == seq!['%', '>']);
    if char_is(s, a, '>') {
        Ok((Combinator::Children, a + 1))
    } else if lit_at(s, a, &marker) {
        Ok((Combinator::CurrentAndChildren, a + 2))
    } else if char_is(s, a, '%') {
        Ok((Combinator::CurrentAndDescendants, a + 1))
    } else if p < a {
        Ok((Combinator::Descendants, a))
    } else {
        Err(ParseError::Backtrack)
    }
}

/// One element of a chain at `p`, and whether it is marked as the subject.
pub fn element_at(s: &Vec<char>, p: usize) -> (r: Result<((Expression, bool), usize), ParseError>)
    requires
        p <= s@.len(),
    ensures
        match r {
            Ok((xm, q)) => spec_element(s@, p as int) == Ok::<((SpecExpression, bool), int), ParseError>(((expr_view(xm.0), xm.1), q as int)) && p < q <= s@.len(),
            Err(e) => spec_element(s@, p as int) == Err::<((SpecExpression, bool), int), ParseError>(e),
        },
    decreases s@.len() - p, 1int,
{
    let n = s.len();
    let a = spaces_end(s, p);
    if char_is(s, a, '(') {
        let b = spaces_end(s, a + 1);
        match selector_at(s, b) {
            Err(x) => Err(x),
            Ok((sel, c)) => {
                let d = spaces_end(s, c);
                if char_is(s, d, ')') {
                    Ok(((Expression::Selector(Box::new(sel)), false), d + 1))
                } else {
                    Err(ParseError::Backtrack)
                }
            },
        }
    } else {
        match predicate_at(s, a) {
            Ok(((pred, marked), e)) => Ok(((Expression::Predicate(pred), marked), e)),
            Err(x) => Err(x),
        }
    }
}

/// The first element of a chain at `p`, joined to what came before by `%`.
pub fn first_chain_element_at(s: &Vec<char>, p: usize) -> (r: Result<((Combinator, Expression, bool), usize), ParseError>)
    requires
        p <= s@.len(),
    ensures
        match r {
            Ok((cxm, q)) => cxm.0 == Combinator::CurrentAndDescendants && spec_element(s@, p as int) == Ok::<((SpecExpression, bool), int), ParseError>(((expr_view(cxm.1), cxm.2), q as int)) && p < q <= s@.len(),
            Err(e) => spec_element(s@, p as int) == Err::<((SpecExpression, bool), int), ParseError>(e),
        },
    decreases s@.len() - p, 2int,
{
    match element_at(s, p) {
        Ok(((expr, marked), q)) => Ok(((Combinator::CurrentAndDescendants, expr, marked), q)),
        Err(x) => Err(x),
    }
}

/// The rest of a chain from `p` on, appended to `chain`.
fn chain_from(s: &Vec<char>, p: usize, chain: Vec<(Combinator, Expression)>, subject: Option<usize>) -> (r: Result<(Vec<(Combinator, Expression)>, Option<usize>, usize), ParseError>)
    requires
        p <= s@.len(),
    ensures
        match r {
            Ok((c, subj, q)) => spec_chain_from(s@, p as int, chain_value(chain@), subject) == Ok::<(Seq<(Combinator, SpecExpression)>, Option<usize>, int), ParseError>((chain_value(c@), subj, q as int)) && p <= q <= s@.len(),
            Err(e) => spec_chain_from(s@, p as int, chain_value(chain@), subject) == Err::<(Seq<(Combinator, SpecExpression)>, Option<usize>, int), ParseError>(e),
        },
    decreases s@.len() - p, 3int,
{
    match combinator_at(s, p) {
        Err(ParseError::Backtrack) => Ok((chain, subject, p)),
        Err(x) => Err(x),
        Ok((combinator, q)) => match element_at(s, q) {
            Err(ParseError::Backtrack) => Ok((chain, subject, p)),
            Err(x) => Err(x),
            Ok(((expr, marked), e)) => {
                if marked && subject.is_some() {
                    return Err(ParseError::Cut(Problem::DuplicateSubject));
                }
                proof {
                    crate::selector::lemma_chain_view(chain@, chain@.len());
                    lemma_chain_push(chain@, (combinator, expr));
                }
                let next_subject = if marked {
                    Some(chain.len())
                } else {
                    subject
                };
                let mut chain = chain;
                chain.push((combinator, expr));
                chain_from(s, e, chain, next_subject)
            },
        },
    }
}

/// A selector at `p`.
pub fn selector_at(s: &Vec<char>, p: usize) -> (r: Result<(Selector, usize), ParseError>)
    requires
        p <= s@.len(),
    ensures
        match r {
            Ok((sel, q)) => spec_selector(s@, p as int) == Ok::<(SpecSelector, int), ParseError>((sel@, q as int)) && p < q <= s@.len(),
            Err(e) => spec_selector(s@, p as int) == Err::<(SpecSelector, int), ParseError>(e),
        },
    decreases s@.len() - p, 4int,
{
    let n = s.len();
    let a = spaces_end(s, p);
    let ((combinator, first, marked), e) = match first_chain_element_at(s, a) {
        Ok(x) => x,
        Err(x) => return Err(x),
    };
    let mut chain: Vec<(Combinator, Expression)> = Vec::new();
    proof {
        lemma_chain_push(chain@, (combinator, first));
        assert(chain_value(chain@) =~= seq![]);
    }
    chain.push((combinator, first));
    let subject = if marked {
        Some(0)
    } else {
        None
    };
    match chain_from(s, e, chain, subject) {
        Err(x) => Err(x),
        Ok((chain, subject, f)) => {
            let g = spaces_end(s, f);
            if g < n && s[g] != ')' {
                return Err(ParseError::Cut(Problem::UnexpectedInput));
            }
            Ok((Selector::new_with_subject(chain, subject), g))
        },
    }
}

/// A combinator at the start of `input`.
pub fn parse_combinator(input: &mut &str) -> (r: Result<Combinator, ParseError>)
    ensures
        match spec_combinator(old(input)@, 0) {
            Ok((v, q)) => r == Ok::<Combinator, ParseError>(v) && final(input)@ == rest_after(old(input)@, q),
            Err(e) => r == Err::<Combinator, ParseError>(e) && final(input)@ == old(input)@,
        },
{
    let s = chars_of(*input);
    match combinator_at(&s, 0) {
        Ok((v, q)) => {
            advance(input, q);
            Ok(v)
        },
        Err(e) => Err(e),
    }
}

/// A selector at the start of `input`; on success `input` is left empty or
/// at a `)`.
pub fn parse_selector(input: &mut &str) -> (r: Result<Selector, ParseError>)
    ensures
        match spec_selector(old(input)@, 0) {
            Ok((v, q)) => r matches Ok(sel) && sel@ == v && final(input)@ == rest_after(old(input)@, q),
            Err(e) => r matches Err(x) && x == e && final(input)@ == old(input)@,
        },
        r matches Ok(sel) ==> wf_selector(sel@) && parsed_shape(sel@),
{
    let s = chars_of(*input);
    proof {
        law_parsed_selector_wf(s@, 0);
    }
    match selector_at(&s, 0) {
        Ok((v, q)) => {
            advance(input, q);
            Ok(v)
        },
        Err(e) => Err(e),
    }
}

} // verus!
