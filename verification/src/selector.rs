//! Selectors are comprised of a chain of predicates and joiners between them.
//! An example selector `hub [port=3] > device [manufacturer="Logitech"]` that
//! looks for a Logitech device connected to a hub that's connected to port 3
//! of its parent hub is represented as a chain of two elements: the hub
//! predicate, joined by [`Combinator::Children`] to the device predicate.

use vstd::prelude::*;

use crate::frontier::{listed, no_repeats, Frontier};
use crate::node::{wf_forest, Node};
use crate::parser::nesting::{embeds, lemma_selector_neutral, scan_at};
use crate::parser::scan::{ParseError, Problem};
use crate::parser::selector::{law_parsed_selector_wf, selector_at, spec_selector};
use crate::predicate::{Predicate, SpecPredicate};
use crate::text::{chars_of, lemma_trimmed_twice, trim_bounds, trimmed};
use crate::semantics::{
    includes_descendants, includes_self, lemma_run_distributes, lemma_select_distributes,
    lemma_step_distributes, lemma_select_with_tail, lemma_select_without_tail, lemma_nonempty, reach_mode, reach_set, reaches, run_set, select_set, step_set, subject_of,
};

verus! {

/// How an element of a selector chain relates to the nodes matched before it.
#[derive(Debug, PartialEq, Eq, Copy, Clone, Structural)]
pub enum Combinator {
    /// Matches all descendants of an element.
    /// Represented by whitespace in the textual format.
    Descendants,
    /// Matches only the elements that are direct children of a given element.
    ///
    /// Note that for hubs, one physical hub can be implemented with multiple
    /// hub ICs internally. For example, most 7-port hubs are actually two
    /// 4-port hubs, with 3 ports on the parent hub and 4 on the child.
    ///
    /// Represented by '>' in the textual format.
    Children,
    /// Matches the current element and all of its descendants.
    ///
    /// Represented by '%' in the textual format.
    CurrentAndDescendants,
    /// Matches the current element and all of its direct children.
    ///
    /// Represented by '%>' in the textual format.
    CurrentAndChildren,
}

/// One element of a selector chain: a predicate, or a parenthesized
/// sub-selector.
#[derive(Debug, PartialEq)]
pub enum Expression {
    Predicate(Predicate),
    Selector(Box<Selector>),
}

/// A chain of (combinator, expression) pairs, with the index of the element
/// whose nodes are selected (the subject); without one, the last element is
/// the subject.
#[derive(Debug, PartialEq)]
pub struct Selector {
    chain: Vec<(Combinator, Expression)>,
    subject_index: Option<usize>,
}

/// The mathematical value of an [`Expression`].
pub enum SpecExpression {
    Predicate(SpecPredicate),
    Selector(SpecSelector),
}

/// The mathematical value of a [`Selector`].
pub struct SpecSelector {
    pub chain: Seq<(Combinator, SpecExpression)>,
    pub subject_index: Option<usize>,
}

/// The value of an expression.
pub open spec fn expr_view(e: Expression) -> SpecExpression
    decreases e, 0int,
{
    match e {
        Expression::Predicate(p) => SpecExpression::Predicate(p@),
        Expression::Selector(b) => SpecExpression::Selector(sel_view(*b)),
    }
}

/// The value of a selector.
pub closed spec fn sel_view(s: Selector) -> SpecSelector
    decreases s, 1int,
{
    SpecSelector { chain: chain_view(s.chain@, s.chain@.len()), subject_index: s.subject_index }
}

/// The values of the first `n` elements of a chain.
pub open spec fn chain_view(c: Seq<(Combinator, Expression)>, n: nat) -> Seq<(Combinator, SpecExpression)>
    decreases c, n,
{
    if n == 0 || n > c.len() {
        seq![]
    } else {
        chain_view(c, (n - 1) as nat).push((c[n - 1].0, expr_view(c[n - 1].1)))
    }
}

/// The value of a whole chain.
pub open spec fn chain_value(c: Seq<(Combinator, Expression)>) -> Seq<(Combinator, SpecExpression)> {
    chain_view(c, c.len())
}

impl View for Selector {
    type V = SpecSelector;

    open spec fn view(&self) -> SpecSelector {
        sel_view(*self)
    }
}

/// The values of a chain's elements, one by one.
pub proof fn lemma_chain_view<'a>(c: Seq<(Combinator, Expression)>, n: nat)
    requires
        n <= c.len(),
    ensures
        chain_view(c, n).len() == n,
        forall|i: int| 0 <= i < n ==> #[trigger] chain_view(c, n)[i] == (c[i].0, expr_view(c[i].1)),
    decreases n,
{
    if n > 0 {
        lemma_chain_view(c, (n - 1) as nat);
    }
}

/// Pushing an element onto a chain pushes its value onto the chain's value.
pub proof fn lemma_chain_push(c: Seq<(Combinator, Expression)>, x: (Combinator, Expression))
    ensures
        chain_value(c.push(x)) == chain_value(c).push((x.0, expr_view(x.1))),
{
    lemma_chain_view(c, c.len());
    lemma_chain_view(c.push(x), c.push(x).len());
    assert(chain_value(c.push(x)) =~= chain_value(c).push((x.0, expr_view(x.1))));
}

/// A well-formed selector: wherever a subject is given, it is an element of
/// its (non-empty) chain, and so throughout its sub-selectors.
pub open spec fn wf_selector(s: SpecSelector) -> bool
    decreases s, 1int,
{
    &&& (s.chain.len() == 0 || s.subject_index is None || s.subject_index.unwrap() < s.chain.len())
    &&& wf_chain(s.chain, s.chain.len() as int)
}

/// The first `n` elements of a chain are well formed.
pub open spec fn wf_chain(c: Seq<(Combinator, SpecExpression)>, n: int) -> bool
    decreases c, n,
{
    if n <= 0 || n > c.len() {
        true
    } else {
        wf_chain(c, n - 1) && wf_expression(c[n - 1].1)
    }
}

/// A well-formed expression: a predicate, or a well-formed sub-selector.
pub open spec fn wf_expression(e: SpecExpression) -> bool
    decreases e, 0int,
{
    match e {
        SpecExpression::Predicate(_) => true,
        SpecExpression::Selector(s) => wf_selector(s),
    }
}

/// The shape that the textual syntax gives a selector: a non-empty chain
/// whose first combinator is `%` (the current element and its
/// descendants), whose subject, where one is given, is a predicate of the
/// chain, and whose sub-selectors have the same shape.
pub open spec fn parsed_shape(s: SpecSelector) -> bool
    decreases s, 1int,
{
    &&& s.chain.len() > 0
    &&& s.chain[0].0 == Combinator::CurrentAndDescendants
    &&& (s.subject_index matches Some(k) ==> k < s.chain.len() && s.chain[k as int].1 is Predicate)
    &&& shaped_chain(s.chain, s.chain.len() as int)
}

/// The sub-selectors among the first `n` elements of a chain have the
/// shape that the textual syntax gives.
pub open spec fn shaped_chain(c: Seq<(Combinator, SpecExpression)>, n: int) -> bool
    decreases c, n,
{
    if n <= 0 || n > c.len() {
        true
    } else {
        shaped_chain(c, n - 1) && shaped_expression(c[n - 1].1)
    }
}

/// A predicate, or a sub-selector of the shape that the textual syntax
/// gives.
pub open spec fn shaped_expression(e: SpecExpression) -> bool
    decreases e, 0int,
{
    match e {
        SpecExpression::Predicate(_) => true,
        SpecExpression::Selector(s) => parsed_shape(s),
    }
}

/// Each element of a well-formed chain is well formed.
pub proof fn lemma_wf_chain(c: Seq<(Combinator, SpecExpression)>, n: int, i: int)
    requires
        wf_chain(c, n),
        0 <= i < n <= c.len(),
    ensures
        wf_expression(c[i].1),
    decreases n,
{
    if i < n - 1 {
        lemma_wf_chain(c, n - 1, i);
    }
}


/// The value of one chain element.
pub open spec fn elem_view(e: (Combinator, Expression)) -> (Combinator, SpecExpression) {
    (e.0, expr_view(e.1))
}

impl Selector {
    /// A selector whose subject is the last element of its chain.
    pub fn new(chain: Vec<(Combinator, Expression)>) -> (r: Self)
        ensures
            r@ == (SpecSelector { chain: chain_value(chain@), subject_index: None }),
    {
        Selector { chain, subject_index: None }
    }

    /// A selector with the given subject (the last element when `None`).
    pub fn new_with_subject(chain: Vec<(Combinator, Expression)>, subject_index: Option<usize>) -> (r: Self)
        ensures
            r@ == (SpecSelector { chain: chain_value(chain@), subject_index }),
    {
        Selector { chain, subject_index }
    }

    /// The chain of (combinator, expression) pairs.
    pub fn chain(&self) -> (r: &Vec<(Combinator, Expression)>)
        ensures
            chain_value(r@) == self@.chain,
            r@.len() == self@.chain.len(),
    {
        proof {
            lemma_chain_view(self.chain@, self.chain@.len());
        }
        &self.chain
    }

    /// The index of the subject, if one was given.
    pub fn subject_index(&self) -> (r: Option<usize>)
        ensures
            r == self@.subject_index,
    {
        self.subject_index
    }

    /// The frontier reached from `frontier` by one chain element.
    fn step<'a, T>(filter: &(Combinator, Expression), frontier: Frontier<'a, T>) -> (r: Frontier<'a, T>)
        requires
            frontier.wf(),
            wf_expression(expr_view(filter.1)),
        ensures
            r.wf(),
            r.forest == frontier.forest,
            forall|x: Node<T>| #[trigger] r.has_key(x) == step_set(elem_view(*filter), frontier.keys()).contains(x),
            forall|x: Node<T>, root: Node<T>|
                #[trigger] r.has_root(x, root) == exists|m: Node<T>|
                    frontier.has_root(m, root) && #[trigger] step_set(elem_view(*filter), Set::empty().insert(m)).contains(x),
        decreases filter, 0int,
    {
        let (combinator, expression) = filter;
        let include_self = match combinator {
            Combinator::CurrentAndChildren | Combinator::CurrentAndDescendants => true,
            _ => false,
        };
        let include_descendants = match combinator {
            Combinator::Descendants | Combinator::CurrentAndDescendants => true,
            _ => false,
        };
        let ghost c = *combinator;
        let ghost st = elem_view(*filter);
        assert(include_self == includes_self(c));
        assert(include_descendants == includes_descendants(c));
        let mut next = Frontier::empty(frontier.forest);
        let mut j: usize = 0;
        while j < frontier.entries.len()
            invariant
                frontier.wf(),
                next.wf(),
                next.forest == frontier.forest,
                j <= frontier.entries@.len(),
                include_self == includes_self(c),
                include_descendants == includes_descendants(c),
                forall|x: Node<T>|
                    #[trigger] next.has_key(x) == exists|l: int|
                        0 <= l < j && reaches(c, #[trigger] frontier.key_at(l), x),
                forall|x: Node<T>, root: Node<T>|
                    #[trigger] next.has_root(x, root) == exists|l: int|
                        0 <= l < j && reaches(c, #[trigger] frontier.key_at(l), x) && listed(
                            frontier.roots_at(l),
                            root,
                        ),
            decreases frontier.entries@.len() - j,
        {
            proof {
                assert(crate::node::in_forest(frontier.forest@, frontier.key_at(j as int)));
                assert(crate::frontier::all_in_forest(frontier.forest@, frontier.roots_at(j as int)));
            }
            let ghost before = next;
            Node::collect_children(
                &mut next,
                frontier.entries[j].node,
                &frontier.entries[j].roots,
                include_self,
                include_descendants,
            );
            proof {
                assert forall|x: Node<T>|
                    #[trigger] next.has_key(x) == exists|l: int|
                        0 <= l < j + 1 && reaches(c, #[trigger] frontier.key_at(l), x) by {
                    if exists|l: int| 0 <= l < j + 1 && reaches(c, #[trigger] frontier.key_at(l), x) {
                        let l = choose|l: int| 0 <= l < j + 1 && reaches(c, #[trigger] frontier.key_at(l), x);
                        if l < j {
                            assert(before.has_key(x));
                        }
                    }
                    if reaches(c, frontier.key_at(j as int), x) {
                        assert(0 <= j < j + 1 && reaches(c, frontier.key_at(j as int), x));
                    }
                }
                assert forall|x: Node<T>, root: Node<T>|
                    #[trigger] next.has_root(x, root) == exists|l: int|
                        0 <= l < j + 1 && reaches(c, #[trigger] frontier.key_at(l), x) && listed(
                            frontier.roots_at(l),
                            root,
                        ) by {
                    if exists|l: int|
                        0 <= l < j + 1 && reaches(c, #[trigger] frontier.key_at(l), x) && listed(
                            frontier.roots_at(l),
                            root,
                        ) {
                        let l = choose|l: int|
                            0 <= l < j + 1 && reaches(c, #[trigger] frontier.key_at(l), x) && listed(
                                frontier.roots_at(l),
                                root,
                            );
                        if l < j {
                            assert(before.has_root(x, root));
                        }
                    }
                    if reaches(c, frontier.key_at(j as int), x) && listed(frontier.roots_at(j as int), root) {
                        assert(0 <= j < j + 1 && reaches(c, frontier.key_at(j as int), x));
                    }
                }
            }
            j = j + 1;
        }
        let ghost f = frontier.keys();
        proof {
            assert forall|x: Node<T>| #[trigger] next.has_key(x) == reach_set(c, f).contains(x) by {
                if next.has_key(x) {
                    let l = choose|l: int| 0 <= l < j && reaches(c, #[trigger] frontier.key_at(l), x);
                    assert(f.contains(frontier.key_at(l)));
                }
                if reach_set(c, f).contains(x) {
                    let m = choose|m: Node<T>| f.contains(m) && #[trigger] reaches(c, m, x);
                    let l = choose|l: int| 0 <= l < frontier.entries@.len() && #[trigger] frontier.key_at(l) == m;
                    assert(reaches(c, frontier.key_at(l), x));
                }
            }
            assert forall|x: Node<T>, root: Node<T>|
                #[trigger] next.has_root(x, root) == exists|m: Node<T>|
                    frontier.has_root(m, root) && #[trigger] reaches(c, m, x) by {
                if next.has_root(x, root) {
                    let l = choose|l: int|
                        0 <= l < j && reaches(c, #[trigger] frontier.key_at(l), x) && listed(frontier.roots_at(l), root);
                    assert(frontier.has_root(frontier.key_at(l), root));
                }
                if exists|m: Node<T>| frontier.has_root(m, root) && #[trigger] reaches(c, m, x) {
                    let m = choose|m: Node<T>| frontier.has_root(m, root) && #[trigger] reaches(c, m, x);
                    let l = choose|l: int|
                        0 <= l < frontier.entries@.len() && #[trigger] frontier.key_at(l) == m && listed(
                            frontier.roots_at(l),
                            root,
                        );
                    assert(reaches(c, frontier.key_at(l), x));
                }
            }
        }
        match expression {
            Expression::Predicate(p) => {
                let r = next.retain_matching(p);
                proof {
                    assert forall|x: Node<T>| #[trigger] r.has_key(x) == step_set(st, f).contains(x) by {
                    }
                    assert forall|x: Node<T>, root: Node<T>|
                        #[trigger] r.has_root(x, root) == exists|m: Node<T>|
                            frontier.has_root(m, root) && #[trigger] step_set(st, Set::empty().insert(m)).contains(x) by {
                        if r.has_root(x, root) {
                            let m = choose|m: Node<T>| frontier.has_root(m, root) && #[trigger] reaches(c, m, x);
                            assert(reach_set(c, Set::empty().insert(m)).contains(x));
                            assert(step_set(st, Set::empty().insert(m)).contains(x));
                        }
                        if exists|m: Node<T>| frontier.has_root(m, root) && #[trigger] step_set(st, Set::empty().insert(m)).contains(x) {
                            let m = choose|m: Node<T>| frontier.has_root(m, root) && #[trigger] step_set(st, Set::empty().insert(m)).contains(x);
                            let m2 = choose|m2: Node<T>| Set::empty().insert(m).contains(m2) && #[trigger] reaches(c, m2, x);
                            assert(m2 == m);
                            assert(next.has_root(x, root));
                        }
                    }
                }
                r
            },
            Expression::Selector(sub) => {
                let ghost sv = sel_view(**sub);
                let ghost g = reach_set(c, f);
                assert(next.keys() =~= g);
                let r = Selector::select_from_frontier(&sub.chain, sub.subject_index, next);
                proof {
                    assert forall|x: Node<T>, root: Node<T>|
                        #[trigger] r.has_root(x, root) == exists|m: Node<T>|
                            frontier.has_root(m, root) && #[trigger] step_set(st, Set::empty().insert(m)).contains(x) by {
                        if r.has_root(x, root) {
                            let y = choose|y: Node<T>| next.has_root(y, root) && #[trigger] select_set(sv, Set::empty().insert(y)).contains(x);
                            let m = choose|m: Node<T>| frontier.has_root(m, root) && #[trigger] reaches(c, m, y);
                            let gm = reach_set(c, Set::empty().insert(m));
                            assert(gm.contains(y));
                            lemma_select_distributes(sv, gm, x);
                            assert(step_set(st, Set::empty().insert(m)).contains(x));
                        }
                        if exists|m: Node<T>| frontier.has_root(m, root) && #[trigger] step_set(st, Set::empty().insert(m)).contains(x) {
                            let m = choose|m: Node<T>| frontier.has_root(m, root) && #[trigger] step_set(st, Set::empty().insert(m)).contains(x);
                            let gm = reach_set(c, Set::empty().insert(m));
                            lemma_select_distributes(sv, gm, x);
                            let y = choose|y: Node<T>| gm.contains(y) && #[trigger] select_set(sv, Set::empty().insert(y)).contains(x);
                            let m2 = choose|m2: Node<T>| Set::empty().insert(m).contains(m2) && #[trigger] reaches(c, m2, y);
                            assert(m2 == m);
                            assert(next.has_root(y, root));
                        }
                    }
                }
                r
            },
        }
    }

    /// The frontier reached from `frontier` by the elements `lo..hi` of `chain`.
    fn select_slice<'a, T>(chain: &Vec<(Combinator, Expression)>, lo: usize, hi: usize, frontier: Frontier<'a, T>) -> (r: Frontier<'a, T>)
        requires
            frontier.wf(),
            lo <= hi <= chain@.len(),
            wf_chain(chain_value(chain@), chain@.len() as int),
        ensures
            r.wf(),
            r.forest == frontier.forest,
            forall|x: Node<T>| #[trigger] r.has_key(x) == run_set(chain_value(chain@), lo as int, hi as int, frontier.keys()).contains(x),
            forall|x: Node<T>, root: Node<T>|
                #[trigger] r.has_root(x, root) == exists|m: Node<T>|
                    frontier.has_root(m, root) && #[trigger] run_set(chain_value(chain@), lo as int, hi as int, Set::empty().insert(m)).contains(x),
        decreases chain@, 1int,
    {
        let ghost cv = chain_value(chain@);
        let ghost f = frontier.keys();
        let ghost start = frontier;
        proof {
            lemma_chain_view(chain@, chain@.len());
            assert forall|x: Node<T>, root: Node<T>|
                #[trigger] frontier.has_root(x, root) == exists|m: Node<T>|
                    start.has_root(m, root) && #[trigger] run_set(cv, lo as int, lo as int, Set::empty().insert(m)).contains(x) by {
                if frontier.has_root(x, root) {
                    assert(run_set(cv, lo as int, lo as int, Set::empty().insert(x)).contains(x));
                }
            }
        }
        let mut cur = frontier;
        let mut i: usize = lo;
        while i < hi
            invariant
                start.wf(),
                cur.wf(),
                cur.forest == start.forest,
                lo <= i <= hi <= chain@.len(),
                cv == chain_value(chain@),
                f == start.keys(),
                cv.len() == chain@.len(),
                forall|l: int| 0 <= l < chain@.len() ==> #[trigger] cv[l] == elem_view(chain@[l]),
                wf_chain(cv, chain@.len() as int),
                forall|x: Node<T>| #[trigger] cur.has_key(x) == run_set(cv, lo as int, i as int, f).contains(x),
                forall|x: Node<T>, root: Node<T>|
                    #[trigger] cur.has_root(x, root) == exists|m: Node<T>|
                        start.has_root(m, root) && #[trigger] run_set(cv, lo as int, i as int, Set::empty().insert(m)).contains(x),
            decreases hi - i,
        {
            proof {
                crate::selector::lemma_wf_chain(cv, chain@.len() as int, i as int);
            }
            let ghost st = cv[i as int];
            let ghost prev = cur;
            let ghost before = run_set(cv, lo as int, i as int, f);
            proof {
                assert(prev.keys() =~= before);
            }
            cur = Selector::step(&chain[i], cur);
            proof {
                assert(elem_view(chain@[i as int]) == st);
                assert forall|x: Node<T>| #[trigger] cur.has_key(x) == run_set(cv, lo as int, i + 1, f).contains(x) by {
                }
                assert forall|x: Node<T>, root: Node<T>|
                    #[trigger] cur.has_root(x, root) == exists|m: Node<T>|
                        start.has_root(m, root) && #[trigger] run_set(cv, lo as int, i + 1, Set::empty().insert(m)).contains(x) by {
                    if cur.has_root(x, root) {
                        let y = choose|y: Node<T>| prev.has_root(y, root) && #[trigger] step_set(st, Set::empty().insert(y)).contains(x);
                        let m = choose|m: Node<T>| start.has_root(m, root) && #[trigger] run_set(cv, lo as int, i as int, Set::empty().insert(m)).contains(y);
                        let rm = run_set(cv, lo as int, i as int, Set::empty().insert(m));
                        lemma_step_distributes(st, rm, x);
                        assert(run_set(cv, lo as int, i + 1, Set::empty().insert(m)).contains(x));
                    }
                    if exists|m: Node<T>| start.has_root(m, root) && #[trigger] run_set(cv, lo as int, i + 1, Set::empty().insert(m)).contains(x) {
                        let m = choose|m: Node<T>| start.has_root(m, root) && #[trigger] run_set(cv, lo as int, i + 1, Set::empty().insert(m)).contains(x);
                        let rm = run_set(cv, lo as int, i as int, Set::empty().insert(m));
                        lemma_step_distributes(st, rm, x);
                        let y = choose|y: Node<T>| rm.contains(y) && #[trigger] step_set(st, Set::empty().insert(y)).contains(x);
                        assert(prev.has_root(y, root));
                    }
                }
            }
            i = i + 1;
        }
        cur
    }

    /// The frontier of the subject nodes that `chain` (with the given
    /// subject) selects from `frontier`, each with the roots of the nodes of
    /// `frontier` from which it is selected.
    fn select_from_frontier<'a, T>(
        chain: &Vec<(Combinator, Expression)>,
        subject_index: Option<usize>,
        frontier: Frontier<'a, T>,
    ) -> (r: Frontier<'a, T>)
        requires
            frontier.wf(),
            wf_selector(SpecSelector { chain: chain_value(chain@), subject_index }),
        ensures
            r.wf(),
            r.forest == frontier.forest,
            forall|x: Node<T>| #[trigger] r.has_key(x) == select_set(SpecSelector { chain: chain_value(chain@), subject_index }, frontier.keys()).contains(x),
            forall|x: Node<T>, root: Node<T>|
                #[trigger] r.has_root(x, root) == exists|m: Node<T>|
                    frontier.has_root(m, root) && #[trigger] select_set(SpecSelector { chain: chain_value(chain@), subject_index }, Set::empty().insert(m)).contains(x),
        decreases chain@, 2int,
    {
        let ghost sv = SpecSelector { chain: chain_value(chain@), subject_index };
        let ghost f = frontier.keys();
        proof {
            lemma_chain_view(chain@, chain@.len());
        }
        if chain.len() == 0 {
            let r = Frontier::empty(frontier.forest);
            return r;
        }
        let k = match subject_index {
            Some(k) => k,
            None => chain.len() - 1,
        };
        assert(k == subject_of(sv));
        let ghost start = frontier;
        let head = Selector::select_slice(chain, 0, k + 1, frontier);
        if k + 1 < chain.len() {
            let rerooted = head.rerooted();
            let tail = Selector::select_slice(chain, k + 1, chain.len(), rerooted);
            let matching = tail.all_roots();
            let r = head.retain_listed(&matching);
            proof {
                let cv = sv.chain;
                let len = chain@.len() as int;
                assert forall|y: Node<T>| #[trigger] listed(matching@, y) == (head.has_key(y) && exists|z: Node<T>|
                    #[trigger] run_set(cv, k + 1, len, Set::empty().insert(y)).contains(z)) by {
                    if listed(matching@, y) {
                        let z = choose|z: Node<T>| #[trigger] tail.has_root(z, y);
                        let m = choose|m: Node<T>| rerooted.has_root(m, y) && #[trigger] run_set(cv, k + 1, len, Set::empty().insert(m)).contains(z);
                        assert(m == y);
                    }
                    if head.has_key(y) && exists|z: Node<T>| #[trigger] run_set(cv, k + 1, len, Set::empty().insert(y)).contains(z) {
                        let z = choose|z: Node<T>| #[trigger] run_set(cv, k + 1, len, Set::empty().insert(y)).contains(z);
                        assert(rerooted.has_root(y, y));
                        assert(tail.has_root(z, y));
                    }
                }
                assert(cv.len() == len);
                assert(subject_of(sv) == k);
                assert forall|x: Node<T>| #[trigger] r.has_key(x) == select_set(sv, f).contains(x) by {
                    lemma_select_with_tail(sv, f, x);
                    lemma_nonempty(run_set(cv, k + 1, len, Set::empty().insert(x)));
                    if r.has_key(x) {
                        assert(head.has_key(x));
                        assert(run_set(cv, 0, k + 1, f).contains(x));
                        let z = choose|z: Node<T>| #[trigger] run_set(cv, k + 1, len, Set::empty().insert(x)).contains(z);
                        assert(run_set(sv.chain, subject_of(sv) + 1, sv.chain.len() as int, Set::empty().insert(x)).contains(z));
                        assert(run_set(sv.chain, 0, subject_of(sv) + 1, f).contains(x));
                        assert(select_set(sv, f).contains(x));
                    }
                    if select_set(sv, f).contains(x) {
                        assert(run_set(cv, 0, k + 1, f).contains(x));
                        assert(head.has_key(x));
                        assert(listed(matching@, x));
                    }
                }
                assert forall|x: Node<T>, root: Node<T>|
                    #[trigger] r.has_root(x, root) == exists|m: Node<T>|
                        start.has_root(m, root) && #[trigger] select_set(sv, Set::empty().insert(m)).contains(x) by {
                    if r.has_root(x, root) {
                        let m = choose|m: Node<T>| start.has_root(m, root) && #[trigger] run_set(cv, 0, k + 1, Set::empty().insert(m)).contains(x);
                        assert(listed(matching@, x));
                        lemma_select_with_tail(sv, Set::empty().insert(m), x);
                        lemma_nonempty(run_set(cv, k + 1, len, Set::empty().insert(x)));
                        assert(select_set(sv, Set::empty().insert(m)).contains(x));
                    }
                    if exists|m: Node<T>| start.has_root(m, root) && #[trigger] select_set(sv, Set::empty().insert(m)).contains(x) {
                        let m = choose|m: Node<T>| start.has_root(m, root) && #[trigger] select_set(sv, Set::empty().insert(m)).contains(x);
                        lemma_select_with_tail(sv, Set::empty().insert(m), x);
                        lemma_nonempty(run_set(cv, k + 1, len, Set::empty().insert(x)));
                        assert(run_set(cv, 0, k + 1, Set::empty().insert(m)).contains(x));
                        assert(start.has_key(m));
                        assert(f.contains(m));
                        lemma_run_distributes(cv, 0, k + 1, f, x);
                        assert(head.has_key(x));
                        assert(head.has_root(x, root));
                    }
                }
            }
            r
        } else {
            proof {
                lemma_select_without_tail(sv, f);
                assert forall|x: Node<T>, root: Node<T>|
                    #[trigger] head.has_root(x, root) == exists|m: Node<T>|
                        start.has_root(m, root) && #[trigger] select_set(sv, Set::empty().insert(m)).contains(x) by {
                    if head.has_root(x, root) {
                        let m = choose|m: Node<T>| start.has_root(m, root) && #[trigger] run_set(sv.chain, 0, k + 1, Set::empty().insert(m)).contains(x);
                        lemma_select_without_tail(sv, Set::empty().insert(m));
                    }
                    if exists|m: Node<T>| start.has_root(m, root) && #[trigger] select_set(sv, Set::empty().insert(m)).contains(x) {
                        let m = choose|m: Node<T>| start.has_root(m, root) && #[trigger] select_set(sv, Set::empty().insert(m)).contains(x);
                        lemma_select_without_tail(sv, Set::empty().insert(m));
                    }
                }
            }
            head
        }
    }

    /// The nodes of the forest `devices` that this selector selects.
    pub fn select<'a, T>(&self, devices: &'a Vec<Node<T>>) -> (r: Vec<&'a Node<T>>)
        requires
            wf_forest(devices@),
            wf_selector(self@),
        ensures
            no_repeats(r@),
            forall|x: Node<T>| #[trigger] listed(r@, x) == select_set(self@, devices@.to_set()).contains(x),
    {
        let frontier = Frontier::from_roots(devices);
        proof {
            assert(frontier.keys() =~= devices@.to_set());
        }
        let selected = Selector::select_from_frontier(&self.chain, self.subject_index, frontier);
        selected.key_nodes()
    }
}

/// An expression equals a predicate when it is that predicate.
impl PartialEq<Predicate> for Expression {
    fn eq(&self, other: &Predicate) -> (r: bool) {
        match self {
            Expression::Predicate(p) => *p == *other,
            Expression::Selector(_) => false,
        }
    }
}

impl vstd::std_specs::cmp::PartialEqSpecImpl<Predicate> for Expression {
    open spec fn obeys_eq_spec() -> bool {
        true
    }

    open spec fn eq_spec(&self, other: &Predicate) -> bool {
        match self {
            Expression::Predicate(p) => p@ == other@,
            Expression::Selector(_) => false,
        }
    }
}

/// A predicate equals an expression when the expression is that predicate.
impl PartialEq<Expression> for Predicate {
    fn eq(&self, other: &Expression) -> (r: bool) {
        match other {
            Expression::Predicate(p) => *self == *p,
            Expression::Selector(_) => false,
        }
    }
}

impl vstd::std_specs::cmp::PartialEqSpecImpl<Expression> for Predicate {
    open spec fn obeys_eq_spec() -> bool {
        true
    }

    open spec fn eq_spec(&self, other: &Expression) -> bool {
        match other {
            Expression::Predicate(p) => self@ == p@,
            Expression::Selector(_) => false,
        }
    }
}

/// Scanning `s` from `i` on for the `)` that closes the `(` at its start,
/// with `depth` parentheses open: parentheses inside quoted strings do not
/// count, and within a string a backslash escapes the next character.
pub open spec fn close_scan(s: Seq<char>, i: int, depth: int, in_string: bool, escape: bool) -> Option<int>
    decreases s.len() - i,
{
    if !(0 <= i < s.len()) {
        None
    } else if escape {
        close_scan(s, i + 1, depth, in_string, false)
    } else if s[i] == '\\' && in_string {
        close_scan(s, i + 1, depth, in_string, true)
    } else if s[i] == '"' {
        close_scan(s, i + 1, depth, !in_string, false)
    } else if in_string {
        close_scan(s, i + 1, depth, in_string, false)
    } else if s[i] == '(' {
        close_scan(s, i + 1, depth + 1, in_string, false)
    } else if s[i] == ')' {
        if depth - 1 == 0 {
            Some(i)
        } else {
            close_scan(s, i + 1, depth - 1, in_string, false)
        }
    } else {
        close_scan(s, i + 1, depth, in_string, false)
    }
}

/// The index, counted in characters, of the `)` that closes the `(` that
/// `s` starts with.
fn matching_close_paren(s: &str) -> (r: Result<usize, String>)
    requires
        s@.len() > 0,
        s@[0] == '(',
    ensures
        match close_scan(s@, 0, 0, false, false) {
            Some(i) => r == Ok::<usize, String>(i as usize) && 0 < i < s@.len(),
            None => r matches Err(m) && m@ == "unmatched parenthesis"@,
        },
{
    let cs = chars_of(s);
    let n = cs.len();
    let mut depth: usize = 0;
    let mut in_string = false;
    let mut escape = false;
    let mut i: usize = 0;
    while i < n
        invariant
            n == cs@.len() == s@.len(),
            cs@ == s@,
            n > 0,
            cs@[0] == '(',
            i <= n,
            depth <= i,
            i > 0 ==> depth >= 1,
            i == 0 ==> depth == 0 && !in_string && !escape,
            close_scan(s@, 0, 0, false, false) == close_scan(s@, i as int, depth as int, in_string, escape),
        decreases n - i,
    {
        let c = cs[i];
        if escape {
            escape = false;
        } else if c == '\\' && in_string {
            escape = true;
        } else if c == '"' {
            in_string = !in_string;
        } else if in_string {
        } else if c == '(' {
            depth = depth + 1;
        } else if c == ')' {
            depth = depth - 1;
            if depth == 0 {
                return Ok(i);
            }
        }
        i = i + 1;
    }
    Err("unmatched parenthesis".to_owned())
}

/// The message for a parse that failed with `e`.
pub open spec fn error_message(e: ParseError) -> Seq<char> {
    match e {
        ParseError::Backtrack => "invalid selector"@,
        ParseError::Cut(problem) => match problem {
            Problem::Port => "invalid port"@,
            Problem::Id => "invalid id"@,
            Problem::VendorId => "invalid vendor id"@,
            Problem::ProductId => "invalid product id"@,
            Problem::QuotedString => "invalid quoted string"@,
            Problem::DuplicateAttribute => "invalid duplicate attribute"@,
            Problem::ConflictingId => "invalid conflicting id and vid/pid"@,
            Problem::DuplicateSubject => "invalid duplicate subject selectors"@,
            Problem::UnexpectedInput => "invalid unexpected remaining input"@,
        },
    }
}

fn error_string(e: ParseError) -> (r: String)
    ensures
        r@ == error_message(e),
{
    match e {
        ParseError::Backtrack => "invalid selector".to_owned(),
        ParseError::Cut(problem) => match problem {
            Problem::Port => "invalid port".to_owned(),
            Problem::Id => "invalid id".to_owned(),
            Problem::VendorId => "invalid vendor id".to_owned(),
            Problem::ProductId => "invalid product id".to_owned(),
            Problem::QuotedString => "invalid quoted string".to_owned(),
            Problem::DuplicateAttribute => "invalid duplicate attribute".to_owned(),
            Problem::ConflictingId => "invalid conflicting id and vid/pid".to_owned(),
            Problem::DuplicateSubject => "invalid duplicate subject selectors".to_owned(),
            Problem::UnexpectedInput => "invalid unexpected remaining input".to_owned(),
        },
    }
}

/// The text that [`Selector::parse`] hands to the grammar: `text` trimmed,
/// and without its outer parentheses where they enclose all of it (the
/// parenthesis that closes the first one is the last character); or the
/// message when an opening parenthesis is never closed.
pub open spec fn parse_input(text: Seq<char>) -> Result<Seq<char>, Seq<char>> {
    let t = trimmed(text);
    if t.len() > 0 && t[0] == '(' {
        match close_scan(t, 0, 0, false, false) {
            None => Err("unmatched parenthesis"@),
            Some(c) => if c + 1 == t.len() {
                Ok(t.subrange(1, c))
            } else {
                Ok(t)
            },
        }
    } else {
        Ok(t)
    }
}

/// What [`Selector::parse`] gives for `text`: the selector that the grammar
/// reads from all of its input, or an error message.
pub open spec fn parse_result(text: Seq<char>) -> Result<SpecSelector, Seq<char>> {
    match parse_input(text) {
        Err(m) => Err(m),
        Ok(u) => match spec_selector(u, 0) {
            Ok((sel, q)) => if q == u.len() {
                Ok(sel)
            } else {
                Err("unexpected trailing input"@)
            },
            Err(e) => Err(error_message(e)),
        },
    }
}

/// White space around the text of a selector does not change what it reads
/// as: a text reads as the same selector, or fails with the same message,
/// as the text trimmed of leading and trailing white space.
pub proof fn law_parse_ignores_surrounding_space(text: Seq<char>)
    ensures
        parse_result(trimmed(text)) == parse_result(text),
{
    lemma_trimmed_twice(text);
}

/// A selector wrapped whole in parentheses reads as the selector itself:
/// where `x` reads as a selector, has no white space at its ends and does
/// not start with a parenthesis of its own, `(x)` reads as `x` does. (The
/// parentheses of `x` outside its strings pair up, so the parenthesis put
/// before it is closed by the one put after it.)
pub proof fn law_enclosing_parentheses(x: Seq<char>)
    requires
        trimmed(x) == x,
        !(x.len() > 0 && x[0] == '('),
        parse_result(x) is Ok,
    ensures
        parse_result(seq!['('] + x + seq![')']) == parse_result(x),
{
    let w = seq!['('] + x + seq![')'];
    let n = x.len() as int;
    assert(parse_input(x) == Ok::<Seq<char>, Seq<char>>(x));
    let (sel, q) = spec_selector(x, 0)->Ok_0;
    assert(q == n);
    assert(embeds(w, x, 1)) by {
        assert forall|i: int| 0 <= i < x.len() implies w[1 + i] == #[trigger] x[i] by {}
    }
    lemma_selector_neutral(w, x, 1, 0);
    assert(w[0] == '(');
    assert(w[n + 1] == ')');
    assert(close_scan(w, 0, 0, false, false) == close_scan(w, 1, 1, false, false));
    assert(scan_at(w, 1, 0, 1, false) == scan_at(w, 1, n, 1, false));
    assert(close_scan(w, n + 1, 1, false, false) == Some(n + 1));
    assert(close_scan(w, 0, 0, false, false) == Some(x.len() as int + 1));
    assert(w[w.len() - 1] == ')');
    assert(crate::text::trim_start(w, 0) == 0);
    assert(crate::text::trim_end(w, w.len() as int, 0) == w.len());
    assert(w.subrange(0, w.len() as int) =~= w);
    assert(trimmed(w) == w);
    assert(w.subrange(1, x.len() as int + 1) =~= x);
    assert(parse_input(w) == Ok::<Seq<char>, Seq<char>>(x));
}

impl Selector {
    /// Reads a selector from its textual form, such as
    /// `!hub[port=1] > device[vid=18d1]`. Parentheses that enclose the whole
    /// text are taken off first. A text that does not read as a selector
    /// gives a short message naming what went wrong (such as `invalid port`
    /// or `invalid duplicate subject selectors`); the message does not
    /// repeat the input nor point at the place of the error.
    pub fn parse(string: &str) -> (r: Result<Self, String>)
        ensures
            match parse_result(string@) {
                Ok(sel) => r matches Ok(x) && x@ == sel,
                Err(m) => r matches Err(x) && x@ == m,
            },
            r matches Ok(x) ==> wf_selector(x@) && parsed_shape(x@),
    {
        let cs = chars_of(string);
        let (lo, hi) = trim_bounds(&cs);
        let t = string.substring_char(lo, hi);
        assert(t@ == trimmed(string@));
        let inner: &str = if lo < hi && cs[lo] == '(' {
            let closing = match matching_close_paren(t) {
                Ok(c) => c,
                Err(m) => return Err(m),
            };
            if closing + 1 == hi - lo {
                t.substring_char(1, closing)
            } else {
                t
            }
        } else {
            t
        };
        let ics = chars_of(inner);
        proof {
            law_parsed_selector_wf(ics@, 0);
        }
        match selector_at(&ics, 0) {
            Ok((sel, q)) => {
                if q == ics.len() {
                    Ok(sel)
                } else {
                    Err("unexpected trailing input".to_owned())
                }
            },
            Err(e) => Err(error_string(e)),
        }
    }
}

} // verus!
