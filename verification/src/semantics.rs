//! What a selector selects, stated over sets of nodes.

use vstd::prelude::*;

use crate::node::{
    in_forest, in_subtree, is_child, is_descendant, lemma_forest_below, lemma_subtree_self,
    lemma_subtree_unfold, Node,
};
use crate::predicate::{pred_holds, SpecPredicate};
use crate::selector::{Combinator, SpecExpression, SpecSelector};

verus! {

/// The combinator keeps the nodes it starts from.
pub open spec fn includes_self(c: Combinator) -> bool {
    c == Combinator::CurrentAndChildren || c == Combinator::CurrentAndDescendants
}

/// The combinator goes below the children.
pub open spec fn includes_descendants(c: Combinator) -> bool {
    c == Combinator::Descendants || c == Combinator::CurrentAndDescendants
}

/// `x` is reached from `n`: `n` itself when `with_self`, a child of `n`, or,
/// when `with_descendants`, any node below `n`.
pub open spec fn reach_mode<T>(n: Node<T>, x: Node<T>, with_self: bool, with_descendants: bool) -> bool {
    ||| with_self && x == n
    ||| is_child(x, n)
    ||| with_descendants && is_descendant(x, n)
}

/// `x` is reached from `n` by the combinator `c`.
pub open spec fn reaches<T>(c: Combinator, n: Node<T>, x: Node<T>) -> bool {
    reach_mode(n, x, includes_self(c), includes_descendants(c))
}

/// The nodes reached by `c` from some node of `f`.
pub open spec fn reach_set<T>(c: Combinator, f: Set<Node<T>>) -> Set<Node<T>> {
    Set::new(|x: Node<T>| exists|m: Node<T>| f.contains(m) && #[trigger] reaches(c, m, x))
}

/// The nodes matched by one chain element from the frontier `f`: the nodes
/// reached by its combinator that meet its predicate, or what its
/// sub-selector selects starting from the nodes reached by its combinator.
pub open spec fn step_set<T>(st: (Combinator, SpecExpression), f: Set<Node<T>>) -> Set<Node<T>>
    decreases st, 0int,
{
    match st.1 {
        SpecExpression::Predicate(p) => Set::new(
            |x: Node<T>| reach_set(st.0, f).contains(x) && pred_holds(p, x),
        ),
        SpecExpression::Selector(sub) => select_set(sub, reach_set(st.0, f)),
    }
}

/// The nodes matched by the elements `lo..hi` of a chain, one after the
/// other, starting from `f`.
pub open spec fn run_set<T>(chain: Seq<(Combinator, SpecExpression)>, lo: int, hi: int, f: Set<Node<T>>) -> Set<
    Node<T>,
>
    decreases chain, hi - lo,
{
    if hi <= lo || lo < 0 || hi > chain.len() {
        f
    } else {
        step_set(chain[hi - 1], run_set(chain, lo, hi - 1, f))
    }
}

/// The index of the subject of a selector: the one given, else the last.
pub open spec fn subject_of(s: SpecSelector) -> int {
    match s.subject_index {
        Some(k) => k as int,
        None => s.chain.len() - 1,
    }
}

/// What the selector `s` selects, starting from the nodes of `f`: the nodes
/// matched by the chain up to the subject, from which the rest of the chain
/// (if any) matches at least one node. An empty chain selects nothing.
pub open spec fn select_set<T>(s: SpecSelector, f: Set<Node<T>>) -> Set<Node<T>>
    decreases s, 0int,
{
    if s.chain.len() == 0 {
        Set::empty()
    } else {
        let k = subject_of(s);
        let head = run_set(s.chain, 0, k + 1, f);
        if k + 1 >= s.chain.len() {
            head
        } else {
            Set::new(
                |x: Node<T>|
                    head.contains(x) && run_set(s.chain, k + 1, s.chain.len() as int, Set::empty().insert(x))
                        != Set::<Node<T>>::empty(),
            )
        }
    }
}

/// One element of a chain matches `x` from `f` iff it matches `x` from a
/// single node of `f`.
pub proof fn lemma_step_distributes<T>(st: (Combinator, SpecExpression), f: Set<Node<T>>, x: Node<T>)
    ensures
        step_set(st, f).contains(x) <==> exists|m: Node<T>|
            f.contains(m) && #[trigger] step_set(st, Set::empty().insert(m)).contains(x),
    decreases st, 0int,
{
    match st.1 {
        SpecExpression::Predicate(p) => {
            if step_set(st, f).contains(x) {
                let m = choose|m: Node<T>| f.contains(m) && #[trigger] reaches(st.0, m, x);
                assert(reach_set(st.0, Set::empty().insert(m)).contains(x));
                assert(step_set(st, Set::empty().insert(m)).contains(x));
            }
            if exists|m: Node<T>| f.contains(m) && #[trigger] step_set(st, Set::empty().insert(m)).contains(x) {
                let m = choose|m: Node<T>| f.contains(m) && #[trigger] step_set(st, Set::empty().insert(m)).contains(x);
                let m2 = choose|m2: Node<T>| Set::empty().insert(m).contains(m2) && #[trigger] reaches(st.0, m2, x);
                assert(m2 == m);
                assert(reach_set(st.0, f).contains(x));
            }
        },
        SpecExpression::Selector(sub) => {
            let g = reach_set(st.0, f);
            lemma_select_distributes(sub, g, x);
            if step_set(st, f).contains(x) {
                let y = choose|y: Node<T>| g.contains(y) && #[trigger] select_set(sub, Set::empty().insert(y)).contains(x);
                let m = choose|m: Node<T>| f.contains(m) && #[trigger] reaches(st.0, m, y);
                let gm = reach_set(st.0, Set::empty().insert(m));
                assert(gm.contains(y));
                lemma_select_distributes(sub, gm, x);
                assert(step_set(st, Set::empty().insert(m)).contains(x));
            }
            if exists|m: Node<T>| f.contains(m) && #[trigger] step_set(st, Set::empty().insert(m)).contains(x) {
                let m = choose|m: Node<T>| f.contains(m) && #[trigger] step_set(st, Set::empty().insert(m)).contains(x);
                let gm = reach_set(st.0, Set::empty().insert(m));
                lemma_select_distributes(sub, gm, x);
                let y = choose|y: Node<T>| gm.contains(y) && #[trigger] select_set(sub, Set::empty().insert(y)).contains(x);
                let m2 = choose|m2: Node<T>| Set::empty().insert(m).contains(m2) && #[trigger] reaches(st.0, m2, y);
                assert(m2 == m);
                assert(g.contains(y));
            }
        },
    }
}

/// A stretch of a chain matches `x` from `f` iff it matches `x` from a
/// single node of `f`.
pub proof fn lemma_run_distributes<T>(
    chain: Seq<(Combinator, SpecExpression)>,
    lo: int,
    hi: int,
    f: Set<Node<T>>,
    x: Node<T>,
)
    ensures
        run_set(chain, lo, hi, f).contains(x) <==> exists|m: Node<T>|
            f.contains(m) && #[trigger] run_set(chain, lo, hi, Set::empty().insert(m)).contains(x),
    decreases chain, hi - lo,
{
    if hi <= lo || lo < 0 || hi > chain.len() {
        if f.contains(x) {
            assert(run_set(chain, lo, hi, Set::empty().insert(x)).contains(x));
        }
    } else {
        let st = chain[hi - 1];
        let r = run_set(chain, lo, hi - 1, f);
        lemma_step_distributes(st, r, x);
        if run_set(chain, lo, hi, f).contains(x) {
            let y = choose|y: Node<T>| r.contains(y) && #[trigger] step_set(st, Set::empty().insert(y)).contains(x);
            lemma_run_distributes(chain, lo, hi - 1, f, y);
            let m = choose|m: Node<T>| f.contains(m) && #[trigger] run_set(chain, lo, hi - 1, Set::empty().insert(m)).contains(y);
            let rm = run_set(chain, lo, hi - 1, Set::empty().insert(m));
            lemma_step_distributes(st, rm, x);
            assert(run_set(chain, lo, hi, Set::empty().insert(m)).contains(x));
        }
        if exists|m: Node<T>| f.contains(m) && #[trigger] run_set(chain, lo, hi, Set::empty().insert(m)).contains(x) {
            let m = choose|m: Node<T>| f.contains(m) && #[trigger] run_set(chain, lo, hi, Set::empty().insert(m)).contains(x);
            let rm = run_set(chain, lo, hi - 1, Set::empty().insert(m));
            lemma_step_distributes(st, rm, x);
            let y = choose|y: Node<T>| rm.contains(y) && #[trigger] step_set(st, Set::empty().insert(y)).contains(x);
            lemma_run_distributes(chain, lo, hi - 1, f, y);
            assert(r.contains(y));
        }
    }
}

/// A selector selects `x` from `f` iff it selects `x` from a single node of
/// `f`.
pub proof fn lemma_select_distributes<T>(s: SpecSelector, f: Set<Node<T>>, x: Node<T>)
    ensures
        select_set(s, f).contains(x) <==> exists|m: Node<T>|
            f.contains(m) && #[trigger] select_set(s, Set::empty().insert(m)).contains(x),
    decreases s, 0int,
{
    if s.chain.len() > 0 {
        let k = subject_of(s);
        lemma_run_distributes(s.chain, 0, k + 1, f, x);
        if select_set(s, f).contains(x) {
            let m = choose|m: Node<T>| f.contains(m) && #[trigger] run_set(s.chain, 0, k + 1, Set::empty().insert(m)).contains(x);
            assert(select_set(s, Set::empty().insert(m)).contains(x));
        }
        if exists|m: Node<T>| f.contains(m) && #[trigger] select_set(s, Set::empty().insert(m)).contains(x) {
            let m = choose|m: Node<T>| f.contains(m) && #[trigger] select_set(s, Set::empty().insert(m)).contains(x);
            assert(run_set(s.chain, 0, k + 1, Set::empty().insert(m)).contains(x));
        }
    }
}

/// How a selector with elements after its subject selects: `x` is selected
/// iff the chain up to the subject matches it and the rest of the chain
/// matches something starting from `x`.
pub proof fn lemma_select_with_tail<T>(s: SpecSelector, f: Set<Node<T>>, x: Node<T>)
    requires
        s.chain.len() > 0,
        subject_of(s) + 1 < s.chain.len(),
    ensures
        select_set(s, f).contains(x) == (run_set(s.chain, 0, subject_of(s) + 1, f).contains(x)
            && run_set(s.chain, subject_of(s) + 1, s.chain.len() as int, Set::empty().insert(x)) != Set::<Node<T>>::empty()),
{
}

/// A selector whose subject is its last element selects what its chain matches.
pub proof fn lemma_select_without_tail<T>(s: SpecSelector, f: Set<Node<T>>)
    requires
        s.chain.len() > 0,
        subject_of(s) + 1 >= s.chain.len(),
    ensures
        select_set(s, f) == run_set(s.chain, 0, subject_of(s) + 1, f),
{
}

/// A set differs from the empty set iff it has a member.
pub proof fn lemma_nonempty<A>(a: Set<A>)
    ensures
        (a != Set::<A>::empty()) == exists|z: A| a.contains(z),
{
    if !exists|z: A| a.contains(z) {
        assert(a =~= Set::<A>::empty());
    }
    if exists|z: A| a.contains(z) {
        let z = choose|z: A| a.contains(z);
        assert(!Set::<A>::empty().contains(z));
    }
}

/// The combinator `%` reaches from `n` exactly the nodes of its subtree.
pub proof fn lemma_reach_subtree<T>(n: Node<T>, x: Node<T>)
    ensures
        reaches(Combinator::CurrentAndDescendants, n, x) == in_subtree(x, n),
{
    lemma_subtree_unfold(x, n);
    lemma_subtree_self(n);
    if is_child(x, n) {
        let i = choose|i: int| 0 <= i < n.children@.len() && n.children@[i] == x;
        assert(in_subtree(n.children@[i], n.children@[i])) by {
            lemma_subtree_self(n.children@[i]);
        }
    }
}

/// Starting from the roots of a forest, the first element of a chain, whose
/// combinator is `%`, reaches exactly the nodes of the forest.
pub proof fn law_forest_reach<T>(roots: Seq<Node<T>>, x: Node<T>)
    ensures
        reach_set(Combinator::CurrentAndDescendants, roots.to_set()).contains(x) == in_forest(roots, x),
{
    if reach_set(Combinator::CurrentAndDescendants, roots.to_set()).contains(x) {
        let m = choose|m: Node<T>| roots.to_set().contains(m) && #[trigger] reaches(Combinator::CurrentAndDescendants, m, x);
        lemma_reach_subtree(m, x);
        let i = choose|i: int| 0 <= i < roots.len() && roots[i] == m;
        assert(in_subtree(x, roots[i]));
    }
    if in_forest(roots, x) {
        let i = choose|i: int| 0 <= i < roots.len() && #[trigger] in_subtree(x, roots[i]);
        lemma_reach_subtree(roots[i], x);
        assert(roots.to_set().contains(roots[i]));
    }
}

/// A selector of two predicates, `p0 c p1`, selects from a forest the
/// nodes that meet `p1` and are reached by `c` from a node of the forest
/// that meets `p0`. Marked as the subject with `!`, its first predicate
/// makes it select instead the nodes of the forest that meet `p0` and reach
/// by `c` a node that meets `p1`: `!hub > device` selects the hubs that have
/// a device attached, where `hub > device` selects those devices.
pub proof fn law_subject_selection<T>(
    roots: Seq<Node<T>>,
    p0: SpecPredicate,
    c: Combinator,
    p1: SpecPredicate,
    x: Node<T>,
)
    ensures
        select_set(
            SpecSelector {
                chain: seq![
                    (Combinator::CurrentAndDescendants, SpecExpression::Predicate(p0)),
                    (c, SpecExpression::Predicate(p1)),
                ],
                subject_index: None,
            },
            roots.to_set(),
        ).contains(x) == (pred_holds(p1, x) && exists|h: Node<T>|
            in_forest(roots, h) && pred_holds(p0, h) && #[trigger] reaches(c, h, x)),
        select_set(
            SpecSelector {
                chain: seq![
                    (Combinator::CurrentAndDescendants, SpecExpression::Predicate(p0)),
                    (c, SpecExpression::Predicate(p1)),
                ],
                subject_index: Some(0),
            },
            roots.to_set(),
        ).contains(x) == (in_forest(roots, x) && pred_holds(p0, x) && exists|d: Node<T>|
            #[trigger] reaches(c, x, d) && pred_holds(p1, d)),
{
    let chain = seq![
        (Combinator::CurrentAndDescendants, SpecExpression::Predicate(p0)),
        (c, SpecExpression::Predicate(p1)),
    ];
    let f = roots.to_set();
    let first = run_set(chain, 0, 1, f);
    assert(run_set(chain, 0, 0, f) == f);
    assert(first == step_set(chain[0], f));
    assert forall|y: Node<T>| #[trigger] first.contains(y) == (in_forest(roots, y) && pred_holds(p0, y)) by {
        law_forest_reach(roots, y);
    }
    let plain = SpecSelector { chain, subject_index: None };
    assert(select_set(plain, f) == run_set(chain, 0, 2, f));
    assert(run_set(chain, 0, 2, f) == step_set(chain[1], first));
    if select_set(plain, f).contains(x) {
        let h = choose|h: Node<T>| first.contains(h) && #[trigger] reaches(c, h, x);
        assert(in_forest(roots, h) && pred_holds(p0, h));
    }
    if pred_holds(p1, x) && exists|h: Node<T>| in_forest(roots, h) && pred_holds(p0, h) && #[trigger] reaches(c, h, x) {
        let h = choose|h: Node<T>| in_forest(roots, h) && pred_holds(p0, h) && #[trigger] reaches(c, h, x);
        assert(first.contains(h));
        assert(reach_set(c, first).contains(x));
    }
    let marked = SpecSelector { chain, subject_index: Some(0) };
    let tail = run_set(chain, 1, 2, Set::empty().insert(x));
    assert(run_set(chain, 1, 1, Set::empty().insert(x)) == Set::empty().insert(x));
    assert(tail == step_set(chain[1], Set::empty().insert(x)));
    lemma_nonempty(tail);
    assert(select_set(marked, f).contains(x) == (first.contains(x) && tail != Set::<Node<T>>::empty()));
    if tail != Set::<Node<T>>::empty() {
        let d = choose|d: Node<T>| tail.contains(d);
        let m = choose|m: Node<T>| Set::empty().insert(x).contains(m) && #[trigger] reaches(c, m, d);
        assert(m == x);
        assert(reaches(c, x, d) && pred_holds(p1, d));
    }
    if exists|d: Node<T>| #[trigger] reaches(c, x, d) && pred_holds(p1, d) {
        let d = choose|d: Node<T>| #[trigger] reaches(c, x, d) && pred_holds(p1, d);
        assert(Set::empty().insert(x).contains(x));
        assert(reach_set(c, Set::empty().insert(x)).contains(d));
        assert(tail.contains(d));
    }
}

/// The selector `!p0 c p1`: the first element is the subject.
pub open spec fn marked_pair(p0: SpecPredicate, c: Combinator, p1: SpecPredicate) -> SpecSelector {
    SpecSelector {
        chain: seq![
            (Combinator::CurrentAndDescendants, SpecExpression::Predicate(p0)),
            (c, SpecExpression::Predicate(p1)),
        ],
        subject_index: Some(0),
    }
}

/// What `!p0 c p1` selects starting from any set of nodes `f`.
proof fn lemma_marked_pair<T>(f: Set<Node<T>>, p0: SpecPredicate, c: Combinator, p1: SpecPredicate, x: Node<T>)
    ensures
        select_set(marked_pair(p0, c, p1), f).contains(x) == (reach_set(Combinator::CurrentAndDescendants, f).contains(x)
            && pred_holds(p0, x) && exists|d: Node<T>| #[trigger] reaches(c, x, d) && pred_holds(p1, d)),
{
    let s = marked_pair(p0, c, p1);
    let chain = s.chain;
    assert(run_set(chain, 0, 0, f) == f);
    let first = run_set(chain, 0, 1, f);
    assert(first == step_set(chain[0], f));
    let tail = run_set(chain, 1, 2, Set::empty().insert(x));
    assert(run_set(chain, 1, 1, Set::empty().insert(x)) == Set::empty().insert(x));
    assert(tail == step_set(chain[1], Set::empty().insert(x)));
    lemma_nonempty(tail);
    assert(select_set(s, f).contains(x) == (first.contains(x) && tail != Set::<Node<T>>::empty()));
    if tail != Set::<Node<T>>::empty() {
        let d = choose|d: Node<T>| tail.contains(d);
        let m = choose|m: Node<T>| Set::empty().insert(x).contains(m) && #[trigger] reaches(c, m, d);
        assert(m == x);
        assert(reaches(c, x, d) && pred_holds(p1, d));
    }
    if exists|d: Node<T>| #[trigger] reaches(c, x, d) && pred_holds(p1, d) {
        let d = choose|d: Node<T>| #[trigger] reaches(c, x, d) && pred_holds(p1, d);
        assert(Set::empty().insert(x).contains(x));
        assert(reach_set(c, Set::empty().insert(x)).contains(d));
        assert(tail.contains(d));
    }
}

/// A parenthesized sub-selector with a subject, followed by a predicate:
/// `(!p0 c1 p1) c p` selects from a forest the nodes that meet `p` and are
/// reached by `c` from a node of the forest that meets `p0` and reaches by
/// `c1` a node that meets `p1`. So `(!hub > device[manufacturer="Logitech"])
/// > device[port=2]` selects the devices at port 2 of the hubs that have a
/// Logitech device attached.
pub proof fn law_subexpression_selection<T>(
    roots: Seq<Node<T>>,
    p0: SpecPredicate,
    c1: Combinator,
    p1: SpecPredicate,
    c: Combinator,
    p: SpecPredicate,
    x: Node<T>,
)
    ensures
        select_set(
            SpecSelector {
                chain: seq![
                    (Combinator::CurrentAndDescendants, SpecExpression::Selector(marked_pair(p0, c1, p1))),
                    (c, SpecExpression::Predicate(p)),
                ],
                subject_index: None,
            },
            roots.to_set(),
        ).contains(x) == (pred_holds(p, x) && exists|h: Node<T>|
            in_forest(roots, h) && pred_holds(p0, h) && (exists|d: Node<T>| #[trigger] reaches(c1, h, d)
                && pred_holds(p1, d)) && #[trigger] reaches(c, h, x)),
{
    let sub = marked_pair(p0, c1, p1);
    let chain = seq![
        (Combinator::CurrentAndDescendants, SpecExpression::Selector(sub)),
        (c, SpecExpression::Predicate(p)),
    ];
    let outer = SpecSelector { chain, subject_index: None };
    let r = roots.to_set();
    let forest = reach_set(Combinator::CurrentAndDescendants, r);
    assert(run_set(chain, 0, 0, r) == r);
    let inner = run_set(chain, 0, 1, r);
    assert(inner == step_set(chain[0], r));
    assert(inner == select_set(sub, forest));
    assert(select_set(outer, r) == run_set(chain, 0, 2, r));
    assert(run_set(chain, 0, 2, r) == step_set(chain[1], inner));
    assert forall|h: Node<T>| #[trigger] inner.contains(h) == (in_forest(roots, h) && pred_holds(p0, h) && exists|d: Node<T>|
        #[trigger] reaches(c1, h, d) && pred_holds(p1, d)) by {
        lemma_marked_pair(forest, p0, c1, p1, h);
        law_forest_reach(roots, h);
        if reach_set(Combinator::CurrentAndDescendants, forest).contains(h) {
            let m = choose|m: Node<T>| forest.contains(m) && #[trigger] reaches(Combinator::CurrentAndDescendants, m, h);
            law_forest_reach(roots, m);
            lemma_reach_subtree(m, h);
            lemma_forest_below(roots, m, h);
        }
        if in_forest(roots, h) {
            lemma_reach_subtree(h, h);
            lemma_subtree_self(h);
            assert(reaches(Combinator::CurrentAndDescendants, h, h));
        }
    }
    if select_set(outer, r).contains(x) {
        let h = choose|h: Node<T>| inner.contains(h) && #[trigger] reaches(c, h, x);
        assert(inner.contains(h));
    }
    if pred_holds(p, x) && exists|h: Node<T>| in_forest(roots, h) && pred_holds(p0, h) && (exists|d: Node<T>|
        #[trigger] reaches(c1, h, d) && pred_holds(p1, d)) && #[trigger] reaches(c, h, x) {
        let h = choose|h: Node<T>| in_forest(roots, h) && pred_holds(p0, h) && (exists|d: Node<T>|
            #[trigger] reaches(c1, h, d) && pred_holds(p1, d)) && #[trigger] reaches(c, h, x);
        assert(inner.contains(h));
        assert(reach_set(c, inner).contains(x));
    }
}

/// A parenthesized sub-selector starts from the nodes that its own
/// combinator reaches: the element `c (sub)` matches `x` from `f` iff `sub`
/// selects `x` starting from a single node `y` that `c` reaches from a node
/// of `f`. After `>` the sub-selector starts from the children of `f`, never
/// from the nodes of `f` themselves or from further below.
pub proof fn law_subselector_start<T>(c: Combinator, sub: SpecSelector, f: Set<Node<T>>, x: Node<T>)
    ensures
        step_set((c, SpecExpression::Selector(sub)), f).contains(x) == exists|m: Node<T>, y: Node<T>|
            f.contains(m) && #[trigger] reaches(c, m, y) && #[trigger] select_set(sub, Set::empty().insert(y)).contains(x),
{
    let g = reach_set(c, f);
    lemma_select_distributes(sub, g, x);
    if step_set((c, SpecExpression::Selector(sub)), f).contains(x) {
        let y = choose|y: Node<T>| g.contains(y) && #[trigger] select_set(sub, Set::empty().insert(y)).contains(x);
        let m = choose|m: Node<T>| f.contains(m) && #[trigger] reaches(c, m, y);
        assert(f.contains(m) && reaches(c, m, y) && select_set(sub, Set::empty().insert(y)).contains(x));
    }
    if exists|m: Node<T>, y: Node<T>|
        f.contains(m) && #[trigger] reaches(c, m, y) && #[trigger] select_set(sub, Set::empty().insert(y)).contains(x) {
        let (m, y) = choose|m: Node<T>, y: Node<T>|
            f.contains(m) && #[trigger] reaches(c, m, y) && #[trigger] select_set(sub, Set::empty().insert(y)).contains(x);
        assert(g.contains(y));
    }
}

/// `p0 > (sub)` selects from a forest what `sub` selects starting from a
/// single child of a node of the forest that meets `p0`.
pub proof fn law_child_subselector<T>(roots: Seq<Node<T>>, p0: SpecPredicate, sub: SpecSelector, x: Node<T>)
    ensures
        select_set(
            SpecSelector {
                chain: seq![
                    (Combinator::CurrentAndDescendants, SpecExpression::Predicate(p0)),
                    (Combinator::Children, SpecExpression::Selector(sub)),
                ],
                subject_index: None,
            },
            roots.to_set(),
        ).contains(x) == exists|h: Node<T>, y: Node<T>|
            in_forest(roots, h) && pred_holds(p0, h) && #[trigger] is_child(y, h)
                && #[trigger] select_set(sub, Set::empty().insert(y)).contains(x),
{
    let chain = seq![
        (Combinator::CurrentAndDescendants, SpecExpression::Predicate(p0)),
        (Combinator::Children, SpecExpression::Selector(sub)),
    ];
    let s = SpecSelector { chain, subject_index: None };
    let r = roots.to_set();
    assert(run_set(chain, 0, 0, r) == r);
    let first = run_set(chain, 0, 1, r);
    assert(first == step_set(chain[0], r));
    assert forall|h: Node<T>| #[trigger] first.contains(h) == (in_forest(roots, h) && pred_holds(p0, h)) by {
        law_forest_reach(roots, h);
    }
    assert(select_set(s, r) == run_set(chain, 0, 2, r));
    assert(run_set(chain, 0, 2, r) == step_set(chain[1], first));
    law_subselector_start(Combinator::Children, sub, first, x);
    if select_set(s, r).contains(x) {
        let (m, y) = choose|m: Node<T>, y: Node<T>|
            first.contains(m) && #[trigger] reaches(Combinator::Children, m, y)
                && #[trigger] select_set(sub, Set::empty().insert(y)).contains(x);
        assert(in_forest(roots, m) && pred_holds(p0, m) && is_child(y, m));
    }
    if exists|h: Node<T>, y: Node<T>|
        in_forest(roots, h) && pred_holds(p0, h) && #[trigger] is_child(y, h)
            && #[trigger] select_set(sub, Set::empty().insert(y)).contains(x) {
        let (h, y) = choose|h: Node<T>, y: Node<T>|
            in_forest(roots, h) && pred_holds(p0, h) && #[trigger] is_child(y, h)
                && #[trigger] select_set(sub, Set::empty().insert(y)).contains(x);
        assert(first.contains(h));
        assert(reaches(Combinator::Children, h, y));
    }
}

/// `p0 > (p1)` selects from a forest the nodes that meet `p1` and lie
/// strictly below a node of the forest that meets `p0`: `hub > (hub)`
/// selects only the hubs that hang below some hub, never a root hub.
pub proof fn law_child_subselector_predicate<T>(roots: Seq<Node<T>>, p0: SpecPredicate, p1: SpecPredicate, x: Node<T>)
    ensures
        select_set(
            SpecSelector {
                chain: seq![
                    (Combinator::CurrentAndDescendants, SpecExpression::Predicate(p0)),
                    (Combinator::Children, SpecExpression::Selector(SpecSelector {
                        chain: seq![(Combinator::CurrentAndDescendants, SpecExpression::Predicate(p1))],
                        subject_index: None,
                    })),
                ],
                subject_index: None,
            },
            roots.to_set(),
        ).contains(x) == (pred_holds(p1, x) && exists|h: Node<T>|
            in_forest(roots, h) && pred_holds(p0, h) && #[trigger] is_descendant(x, h)),
{
    let inner = seq![(Combinator::CurrentAndDescendants, SpecExpression::Predicate(p1))];
    let sub = SpecSelector { chain: inner, subject_index: None };
    law_child_subselector(roots, p0, sub, x);
    assert forall|y: Node<T>| #[trigger] select_set(sub, Set::empty().insert(y)).contains(x)
        == (pred_holds(p1, x) && in_subtree(x, y)) by {
        let one = Set::empty().insert(y);
        assert(run_set(inner, 0, 0, one) == one);
        assert(select_set(sub, one) == step_set(inner[0], one));
        lemma_reach_subtree(y, x);
        if reach_set(Combinator::CurrentAndDescendants, one).contains(x) {
            let m = choose|m: Node<T>| one.contains(m) && #[trigger] reaches(Combinator::CurrentAndDescendants, m, x);
            assert(m == y);
        }
        if in_subtree(x, y) {
            assert(one.contains(y));
        }
    }
    if exists|h: Node<T>, y: Node<T>|
        in_forest(roots, h) && pred_holds(p0, h) && #[trigger] is_child(y, h)
            && #[trigger] select_set(sub, Set::empty().insert(y)).contains(x) {
        let (h, y) = choose|h: Node<T>, y: Node<T>|
            in_forest(roots, h) && pred_holds(p0, h) && #[trigger] is_child(y, h)
                && #[trigger] select_set(sub, Set::empty().insert(y)).contains(x);
        let i = choose|i: int| 0 <= i < h.children@.len() && h.children@[i] == y;
        assert(in_subtree(x, h.children@[i]));
        assert(is_descendant(x, h));
    }
    if pred_holds(p1, x) && exists|h: Node<T>| in_forest(roots, h) && pred_holds(p0, h) && #[trigger] is_descendant(x, h) {
        let h = choose|h: Node<T>| in_forest(roots, h) && pred_holds(p0, h) && #[trigger] is_descendant(x, h);
        let i = choose|i: int| 0 <= i < h.children@.len() && #[trigger] in_subtree(x, h.children@[i]);
        let y = h.children@[i];
        assert(is_child(y, h));
        assert(select_set(sub, Set::empty().insert(y)).contains(x));
    }
}

/// Giving the last element of a chain as its subject selects what the
/// chain selects without a subject.
pub proof fn law_last_subject_is_default<T>(s: SpecSelector, f: Set<Node<T>>)
    requires
        s.chain.len() > 0,
        s.subject_index matches Some(k) && k + 1 == s.chain.len(),
    ensures
        select_set(s, f) == select_set(SpecSelector { subject_index: None, ..s }, f),
{
    let plain = SpecSelector { subject_index: None, ..s };
    assert(subject_of(s) == subject_of(plain));
    assert(plain.chain == s.chain);
}

/// Every node of `f` lies in the forest of `roots`.
pub open spec fn within<T>(roots: Seq<Node<T>>, f: Set<Node<T>>) -> bool {
    forall|m: Node<T>| #[trigger] f.contains(m) ==> in_forest(roots, m)
}

proof fn lemma_reach_within<T>(roots: Seq<Node<T>>, c: Combinator, f: Set<Node<T>>)
    requires
        within(roots, f),
    ensures
        within(roots, reach_set(c, f)),
{
    assert forall|x: Node<T>| #[trigger] reach_set(c, f).contains(x) implies in_forest(roots, x) by {
        let m = choose|m: Node<T>| f.contains(m) && #[trigger] reaches(c, m, x);
        lemma_subtree_unfold(x, m);
        lemma_subtree_self(m);
        if is_child(x, m) {
            let i = choose|i: int| 0 <= i < m.children@.len() && m.children@[i] == x;
            assert(in_subtree(x, m));
        }
        if is_descendant(x, m) {
            assert(in_subtree(x, m));
        }
        lemma_forest_below(roots, m, x);
    }
}

proof fn lemma_step_within<T>(roots: Seq<Node<T>>, st: (Combinator, SpecExpression), f: Set<Node<T>>)
    requires
        within(roots, f),
    ensures
        within(roots, step_set(st, f)),
    decreases st, 0int,
{
    lemma_reach_within(roots, st.0, f);
    match st.1 {
        SpecExpression::Predicate(p) => {},
        SpecExpression::Selector(sub) => {
            lemma_select_within(roots, sub, reach_set(st.0, f));
        },
    }
}

proof fn lemma_run_within<T>(roots: Seq<Node<T>>, chain: Seq<(Combinator, SpecExpression)>, lo: int, hi: int, f: Set<Node<T>>)
    requires
        within(roots, f),
    ensures
        within(roots, run_set(chain, lo, hi, f)),
    decreases chain, hi - lo,
{
    if !(hi <= lo || lo < 0 || hi > chain.len()) {
        lemma_run_within(roots, chain, lo, hi - 1, f);
        lemma_step_within(roots, chain[hi - 1], run_set(chain, lo, hi - 1, f));
    }
}

/// What a selector selects from nodes of a forest lies in that forest.
pub proof fn lemma_select_within<T>(roots: Seq<Node<T>>, s: SpecSelector, f: Set<Node<T>>)
    requires
        within(roots, f),
    ensures
        within(roots, select_set(s, f)),
    decreases s, 0int,
{
    if s.chain.len() > 0 {
        lemma_run_within(roots, s.chain, 0, subject_of(s) + 1, f);
    }
}

/// Every node that a selector selects from a forest is a node of that
/// forest, and meets the predicate of the subject element where that
/// element is a predicate.
pub proof fn law_selected_nodes<T>(roots: Seq<Node<T>>, s: SpecSelector, p: SpecPredicate, x: Node<T>)
    requires
        select_set(s, roots.to_set()).contains(x),
    ensures
        in_forest(roots, x),
        0 <= subject_of(s) < s.chain.len() && s.chain[subject_of(s)].1 == SpecExpression::Predicate(p)
            ==> pred_holds(p, x),
{
    assert forall|m: Node<T>| #[trigger] roots.to_set().contains(m) implies in_forest(roots, m) by {
        let i = choose|i: int| 0 <= i < roots.len() && roots[i] == m;
        lemma_subtree_self(m);
        assert(in_subtree(m, roots[i]));
    }
    lemma_select_within(roots, s, roots.to_set());
    let k = subject_of(s);
    if 0 <= k < s.chain.len() && s.chain[k].1 == SpecExpression::Predicate(p) {
        assert(run_set(s.chain, 0, k + 1, roots.to_set()) == step_set(s.chain[k], run_set(s.chain, 0, k, roots.to_set())));
    }
}

/// `x` meets the element `e` of a chain: `e` is a predicate that holds of
/// `x`.
pub open spec fn meets<T>(e: SpecExpression, x: Node<T>) -> bool {
    match e {
        SpecExpression::Predicate(p) => pred_holds(p, x),
        SpecExpression::Selector(_) => false,
    }
}

/// Every element of the chain is a predicate.
pub open spec fn all_predicates(chain: Seq<(Combinator, SpecExpression)>) -> bool {
    forall|i: int| 0 <= i < chain.len() ==> #[trigger] chain[i].1 is Predicate
}

/// `ms` is a run of nodes matched one by one by the elements of `chain`
/// from `lo` on: the first is reached by its element's combinator from a
/// node of `f`, each next one by its element's combinator from the one
/// before, and each meets its element's predicate.
pub open spec fn matched_run<T>(chain: Seq<(Combinator, SpecExpression)>, lo: int, f: Set<Node<T>>, ms: Seq<Node<T>>) -> bool {
    &&& ms.len() > 0
    &&& 0 <= lo
    &&& lo + ms.len() <= chain.len()
    &&& exists|r: Node<T>| f.contains(r) && #[trigger] reaches(chain[lo].0, r, ms[0])
    &&& forall|t: int| 0 < t < ms.len() ==> reaches(chain[lo + t].0, ms[t - 1], #[trigger] ms[t])
    &&& forall|t: int| 0 <= t < ms.len() ==> meets(chain[lo + t].1, #[trigger] ms[t])
}

/// For a chain of predicates, the elements `lo..hi` match `x` from `f` iff
/// some run of nodes matched by them ends at `x`.
pub proof fn lemma_run_matches<T>(chain: Seq<(Combinator, SpecExpression)>, lo: int, hi: int, f: Set<Node<T>>, x: Node<T>)
    requires
        all_predicates(chain),
        0 <= lo < hi <= chain.len(),
    ensures
        run_set(chain, lo, hi, f).contains(x) == exists|ms: Seq<Node<T>>|
            #[trigger] matched_run(chain, lo, f, ms) && ms.len() == hi - lo && ms.last() == x,
    decreases hi - lo,
{
    let st = chain[hi - 1];
    assert(st.1 is Predicate);
    let p = st.1->Predicate_0;
    let prev = run_set(chain, lo, hi - 1, f);
    assert(run_set(chain, lo, hi, f) == step_set(st, prev));
    if hi == lo + 1 {
        assert(prev == f);
        if run_set(chain, lo, hi, f).contains(x) {
            let ms = seq![x];
            let r = choose|r: Node<T>| f.contains(r) && #[trigger] reaches(st.0, r, x);
            assert(reaches(chain[lo].0, r, ms[0]));
            assert(meets(chain[lo + 0].1, ms[0]));
            assert(matched_run(chain, lo, f, ms));
        }
        if exists|ms: Seq<Node<T>>| #[trigger] matched_run(chain, lo, f, ms) && ms.len() == hi - lo && ms.last() == x {
            let ms = choose|ms: Seq<Node<T>>| #[trigger] matched_run(chain, lo, f, ms) && ms.len() == hi - lo && ms.last() == x;
            assert(ms[0] == x);
            let r = choose|r: Node<T>| f.contains(r) && #[trigger] reaches(chain[lo].0, r, ms[0]);
            assert(meets(chain[lo + 0].1, ms[0]));
            assert(reach_set(st.0, f).contains(x));
        }
    } else {
        if run_set(chain, lo, hi, f).contains(x) {
            let y = choose|y: Node<T>| prev.contains(y) && #[trigger] reaches(st.0, y, x);
            lemma_run_matches(chain, lo, hi - 1, f, y);
            let ms0 = choose|ms: Seq<Node<T>>| #[trigger] matched_run(chain, lo, f, ms) && ms.len() == hi - 1 - lo && ms.last() == y;
            let ms = ms0.push(x);
            let r = choose|r: Node<T>| f.contains(r) && #[trigger] reaches(chain[lo].0, r, ms0[0]);
            assert(reaches(chain[lo].0, r, ms[0]));
            assert forall|t: int| 0 < t < ms.len() implies reaches(chain[lo + t].0, ms[t - 1], #[trigger] ms[t]) by {
                if t < ms0.len() {
                    assert(ms[t] == ms0[t]);
                    assert(reaches(chain[lo + t].0, ms0[t - 1], ms0[t]));
                }
            }
            assert forall|t: int| 0 <= t < ms.len() implies meets(chain[lo + t].1, #[trigger] ms[t]) by {
                if t < ms0.len() {
                    assert(ms[t] == ms0[t]);
                    assert(meets(chain[lo + t].1, ms0[t]));
                }
            }
            assert(matched_run(chain, lo, f, ms));
        }
        if exists|ms: Seq<Node<T>>| #[trigger] matched_run(chain, lo, f, ms) && ms.len() == hi - lo && ms.last() == x {
            let ms = choose|ms: Seq<Node<T>>| #[trigger] matched_run(chain, lo, f, ms) && ms.len() == hi - lo && ms.last() == x;
            let ms0 = ms.drop_last();
            let r = choose|r: Node<T>| f.contains(r) && #[trigger] reaches(chain[lo].0, r, ms[0]);
            assert(reaches(chain[lo].0, r, ms0[0]));
            assert forall|t: int| 0 < t < ms0.len() implies reaches(chain[lo + t].0, ms0[t - 1], #[trigger] ms0[t]) by {
                assert(reaches(chain[lo + t].0, ms[t - 1], ms[t]));
            }
            assert forall|t: int| 0 <= t < ms0.len() implies meets(chain[lo + t].1, #[trigger] ms0[t]) by {
                assert(meets(chain[lo + t].1, ms[t]));
            }
            assert(matched_run(chain, lo, f, ms0));
            lemma_run_matches(chain, lo, hi - 1, f, ms0.last());
            assert(prev.contains(ms0.last()));
            let t = ms.len() - 1;
            assert(reaches(chain[lo + t].0, ms[t - 1], ms[t]));
            assert(meets(chain[lo + t].1, ms[t]));
            assert(reach_set(st.0, prev).contains(x));
        }
    }
}

/// A selector whose elements are all predicates selects from `f` the nodes
/// at the place of its subject in the runs of nodes that its whole chain
/// matches: `x` is selected iff there are nodes `m_0 .. m_{k-1}` with `m_0`
/// reached by the first combinator from a node of `f`, each `m_i` reached
/// by the `i`-th combinator from `m_{i-1}`, each meeting the `i`-th
/// predicate, and `x` the node at the subject's place (the last one where
/// no subject is given). So `hub > device[vid=046d]` selects the devices and
/// `!hub > device[vid=046d]` the hubs.
pub proof fn law_chain_of_nodes<T>(s: SpecSelector, f: Set<Node<T>>, x: Node<T>)
    requires
        all_predicates(s.chain),
        s.chain.len() > 0,
        s.subject_index matches Some(k) ==> k < s.chain.len(),
    ensures
        select_set(s, f).contains(x) == exists|ms: Seq<Node<T>>|
            #[trigger] matched_run(s.chain, 0, f, ms) && ms.len() == s.chain.len() && ms[subject_of(s)] == x,
{
    let chain = s.chain;
    let n = chain.len() as int;
    let k = subject_of(s);
    lemma_run_matches(chain, 0, k + 1, f, x);
    if k + 1 >= n {
        assert(k == n - 1);
    } else {
        let tail = run_set(chain, k + 1, n, Set::empty().insert(x));
        lemma_nonempty(tail);
        if select_set(s, f).contains(x) {
            let ms1 = choose|ms: Seq<Node<T>>| #[trigger] matched_run(chain, 0, f, ms) && ms.len() == k + 1 && ms.last() == x;
            let z = choose|z: Node<T>| tail.contains(z);
            lemma_run_matches(chain, k + 1, n, Set::empty().insert(x), z);
            let ms2 = choose|ms: Seq<Node<T>>| #[trigger] matched_run(chain, k + 1, Set::empty().insert(x), ms) && ms.len() == n - k - 1 && ms.last() == z;
            let ms = ms1 + ms2;
            let r = choose|r: Node<T>| f.contains(r) && #[trigger] reaches(chain[0].0, r, ms1[0]);
            assert(reaches(chain[0].0, r, ms[0]));
            let r2 = choose|r: Node<T>| Set::empty().insert(x).contains(r) && #[trigger] reaches(chain[k + 1].0, r, ms2[0]);
            assert(r2 == x);
            assert forall|t: int| 0 < t < ms.len() implies reaches(chain[0 + t].0, ms[t - 1], #[trigger] ms[t]) by {
                if t < ms1.len() {
                    assert(reaches(chain[0 + t].0, ms1[t - 1], ms1[t]));
                } else if t == ms1.len() {
                    assert(ms[t] == ms2[0]);
                    assert(ms[t - 1] == x);
                } else {
                    let u = t - ms1.len();
                    assert(ms[t] == ms2[u]);
                    assert(ms[t - 1] == ms2[u - 1]);
                    assert(reaches(chain[k + 1 + u].0, ms2[u - 1], ms2[u]));
                }
            }
            assert forall|t: int| 0 <= t < ms.len() implies meets(chain[0 + t].1, #[trigger] ms[t]) by {
                if t < ms1.len() {
                    assert(meets(chain[0 + t].1, ms1[t]));
                } else {
                    let u = t - ms1.len();
                    assert(ms[t] == ms2[u]);
                    assert(meets(chain[k + 1 + u].1, ms2[u]));
                }
            }
            assert(matched_run(chain, 0, f, ms));
            assert(ms[k] == x);
        }
        if exists|ms: Seq<Node<T>>| #[trigger] matched_run(chain, 0, f, ms) && ms.len() == n && ms[k] == x {
            let ms = choose|ms: Seq<Node<T>>| #[trigger] matched_run(chain, 0, f, ms) && ms.len() == n && ms[k] == x;
            let ms1 = ms.subrange(0, k + 1);
            let ms2 = ms.subrange(k + 1, n);
            let r = choose|r: Node<T>| f.contains(r) && #[trigger] reaches(chain[0].0, r, ms[0]);
            assert(reaches(chain[0].0, r, ms1[0]));
            assert forall|t: int| 0 < t < ms1.len() implies reaches(chain[0 + t].0, ms1[t - 1], #[trigger] ms1[t]) by {
                assert(reaches(chain[0 + t].0, ms[t - 1], ms[t]));
            }
            assert forall|t: int| 0 <= t < ms1.len() implies meets(chain[0 + t].1, #[trigger] ms1[t]) by {
                assert(meets(chain[0 + t].1, ms[t]));
            }
            assert(matched_run(chain, 0, f, ms1));
            assert(run_set(chain, 0, k + 1, f).contains(x));
            assert(reaches(chain[k + 1].0, ms[k], ms[k + 1]));
            assert(Set::empty().insert(x).contains(x));
            assert(reaches(chain[k + 1].0, x, ms2[0]));
            assert forall|t: int| 0 < t < ms2.len() implies reaches(chain[k + 1 + t].0, ms2[t - 1], #[trigger] ms2[t]) by {
                assert(reaches(chain[0 + (k + 1 + t)].0, ms[k + 1 + t - 1], ms[k + 1 + t]));
            }
            assert forall|t: int| 0 <= t < ms2.len() implies meets(chain[k + 1 + t].1, #[trigger] ms2[t]) by {
                assert(meets(chain[0 + (k + 1 + t)].1, ms[k + 1 + t]));
            }
            assert(matched_run(chain, k + 1, Set::empty().insert(x), ms2));
            lemma_run_matches(chain, k + 1, n, Set::empty().insert(x), ms2.last());
            assert(tail.contains(ms2.last()));
        }
    }
}

/// Running the elements `lo..hi` of a chain one after the other is running
/// `lo..mid` and then `mid..hi` from what that gives; running no element
/// leaves the start nodes.
pub proof fn law_run_compose<T>(chain: Seq<(Combinator, SpecExpression)>, lo: int, mid: int, hi: int, f: Set<Node<T>>)
    requires
        0 <= lo <= mid <= hi <= chain.len(),
    ensures
        run_set(chain, lo, hi, f) == run_set(chain, mid, hi, run_set(chain, lo, mid, f)),
        run_set(chain, lo, lo, f) == f,
    decreases hi,
{
    if hi > mid {
        law_run_compose(chain, lo, mid, hi - 1, f);
    }
}

} // verus!
