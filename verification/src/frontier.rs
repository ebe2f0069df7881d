//! Frontiers: the nodes reached so far while a selector is evaluated, each
//! with the set of earlier nodes ("roots") from which it was reached.

use vstd::prelude::*;

use crate::node::{in_forest, lemma_forest_unique, lemma_subtree_self, wf_forest, Node};
use crate::predicate::{pred_holds, Predicate};

verus! {

/// One node of a frontier with the roots from which it was reached.
#[verifier::reject_recursive_types(T)]
pub struct FrontierEntry<'a, T> {
    pub node: &'a Node<T>,
    pub roots: Vec<&'a Node<T>>,
}

/// A map from the nodes of a frontier to their roots. All nodes come from
/// the well-formed forest `forest`; no node occurs twice as a key, nor twice
/// among the roots of one key (see [`Frontier::wf`]).
#[verifier::reject_recursive_types(T)]
pub struct Frontier<'a, T> {
    pub entries: Vec<FrontierEntry<'a, T>>,
    pub forest: Ghost<Seq<Node<T>>>,
}

/// Whether two nodes have the same bus address.
pub fn same_address<T>(a: &Node<T>, b: &Node<T>) -> (r: bool)
    ensures
        r == (a.bus_address@ == b.bus_address@),
{
    let n = a.bus_address.len();
    if n != b.bus_address.len() {
        return false;
    }
    let mut i: usize = 0;
    while i < n
        invariant
            n == a.bus_address@.len(),
            n == b.bus_address@.len(),
            i <= n,
            forall|j: int| 0 <= j < i ==> a.bus_address@[j] == b.bus_address@[j],
        decreases n - i,
    {
        if a.bus_address[i].0 != b.bus_address[i].0 {
            return false;
        }
        i = i + 1;
    }
    assert(a.bus_address@ =~= b.bus_address@);
    true
}

/// All nodes of `v` belong to the forest `forest`.
pub open spec fn all_in_forest<'a, T>(forest: Seq<Node<T>>, v: Seq<&'a Node<T>>) -> bool {
    forall|k: int| 0 <= k < v.len() ==> in_forest(forest, *#[trigger] v[k])
}

/// No node occurs twice in `v`.
pub open spec fn no_repeats<'a, T>(v: Seq<&'a Node<T>>) -> bool {
    forall|k: int, l: int| 0 <= k < v.len() && 0 <= l < v.len() && k != l ==> *#[trigger] v[k] != *#[trigger] v[l]
}

/// `x` occurs in `v`.
pub open spec fn listed<'a, T>(v: Seq<&'a Node<T>>, x: Node<T>) -> bool {
    exists|k: int| 0 <= k < v.len() && *#[trigger] v[k] == x
}

/// The position of `n` in `v`, found by bus address; all nodes come from a
/// well-formed forest, so the address identifies the node.
pub fn find_listed<'a, T>(v: &Vec<&'a Node<T>>, n: &Node<T>, Ghost(forest): Ghost<Seq<Node<T>>>) -> (r: Option<usize>)
    requires
        wf_forest(forest),
        all_in_forest(forest, v@),
        in_forest(forest, *n),
    ensures
        match r {
            Some(k) => k < v@.len() && *v@[k as int] == *n,
            None => !listed(v@, *n),
        },
{
    let mut k: usize = 0;
    while k < v.len()
        invariant
            wf_forest(forest),
            all_in_forest(forest, v@),
            in_forest(forest, *n),
            k <= v@.len(),
            forall|j: int| 0 <= j < k ==> *#[trigger] v@[j] != *n,
        decreases v@.len() - k,
    {
        if same_address(v[k], n) {
            proof {
                lemma_forest_unique(forest, *v@[k as int], *n);
            }
            return Some(k);
        }
        k = k + 1;
    }
    None
}

/// Appends to `into` those nodes of `roots` that it does not list yet.
fn merge_listed<'a, T>(into: &mut Vec<&'a Node<T>>, roots: &Vec<&'a Node<T>>, Ghost(forest): Ghost<Seq<Node<T>>>)
    requires
        wf_forest(forest),
        all_in_forest(forest, old(into)@),
        all_in_forest(forest, roots@),
        no_repeats(old(into)@),
    ensures
        all_in_forest(forest, final(into)@),
        no_repeats(final(into)@),
        forall|r: Node<T>| #[trigger] listed(final(into)@, r) == (listed(old(into)@, r) || listed(roots@, r)),
{
    let ghost start = into@;
    let mut k: usize = 0;
    while k < roots.len()
        invariant
            wf_forest(forest),
            all_in_forest(forest, roots@),
            all_in_forest(forest, into@),
            no_repeats(into@),
            k <= roots@.len(),
            forall|r: Node<T>| #[trigger] listed(into@, r) == (listed(start, r) || exists|j: int| 0 <= j < k && *roots@[j] == r),
        decreases roots@.len() - k,
    {
        let r = roots[k];
        let ghost before = into@;
        if find_listed(into, r, Ghost(forest)).is_none() {
            into.push(r);
            proof {
                assert forall|x: Node<T>| #[trigger] listed(into@, x) == (listed(before, x) || x == *r) by {
                    if listed(into@, x) {
                        let l = choose|l: int| 0 <= l < into@.len() && *#[trigger] into@[l] == x;
                        if l < before.len() {
                            assert(*before[l] == x);
                        }
                    }
                    if listed(before, x) {
                        let l = choose|l: int| 0 <= l < before.len() && *#[trigger] before[l] == x;
                        assert(*into@[l] == x);
                    }
                    if x == *r {
                        assert(*into@[before.len() as int] == x);
                    }
                }
            }
        }
        proof {
            assert forall|x: Node<T>| #[trigger] listed(into@, x) == (listed(start, x) || exists|j: int| 0 <= j < k + 1 && *roots@[j] == x) by {
                if x == *r {
                    assert(*roots@[k as int] == x);
                }
                if exists|j: int| 0 <= j < k + 1 && *roots@[j] == x {
                    let j = choose|j: int| 0 <= j < k + 1 && *roots@[j] == x;
                    if j == k {
                        assert(x == *r);
                    } else {
                        assert(exists|j: int| 0 <= j < k && *roots@[j] == x);
                    }
                }
            }
        }
        k = k + 1;
    }
    proof {
        assert forall|x: Node<T>| #[trigger] listed(into@, x) == (listed(start, x) || listed(roots@, x)) by {
            if listed(roots@, x) {
                let j = choose|j: int| 0 <= j < roots@.len() && *#[trigger] roots@[j] == x;
                assert(exists|j: int| 0 <= j < k && *roots@[j] == x);
            }
        }
    }
}

impl<'a, T> Frontier<'a, T> {
    /// The node of the `i`-th entry.
    pub open spec fn key_at(self, i: int) -> Node<T> {
        *self.entries@[i].node
    }

    /// The roots of the `i`-th entry.
    pub open spec fn roots_at(self, i: int) -> Seq<&'a Node<T>> {
        self.entries@[i].roots@
    }

    /// `x` is a node of the frontier.
    pub open spec fn has_key(self, x: Node<T>) -> bool {
        exists|i: int| 0 <= i < self.entries@.len() && #[trigger] self.key_at(i) == x
    }

    /// The nodes of the frontier.
    pub open spec fn keys(self) -> Set<Node<T>> {
        Set::new(|x: Node<T>| self.has_key(x))
    }

    /// `r` is one of the roots of the frontier node `x`.
    pub open spec fn has_root(self, x: Node<T>, r: Node<T>) -> bool {
        exists|i: int|
            0 <= i < self.entries@.len() && #[trigger] self.key_at(i) == x && listed(self.roots_at(i), r)
    }

    /// Every node comes from the forest, which is well formed; keys are
    /// distinct, and so are the roots of each key.
    pub open spec fn wf(self) -> bool {
        &&& wf_forest(self.forest@)
        &&& forall|i: int| 0 <= i < self.entries@.len() ==> in_forest(self.forest@, #[trigger] self.key_at(i))
        &&& forall|i: int| 0 <= i < self.entries@.len() ==> all_in_forest(self.forest@, #[trigger] self.roots_at(i))
        &&& forall|i: int| 0 <= i < self.entries@.len() ==> no_repeats(#[trigger] self.roots_at(i))
        &&& forall|i: int, j: int|
            0 <= i < self.entries@.len() && 0 <= j < self.entries@.len() && i != j ==> #[trigger] self.key_at(i)
                != #[trigger] self.key_at(j)
    }

    /// An empty frontier over the nodes of `forest`.
    pub fn empty(forest: Ghost<Seq<Node<T>>>) -> (r: Self)
        requires
            wf_forest(forest@),
        ensures
            r.wf(),
            r.forest == forest,
            r.keys() == Set::<Node<T>>::empty(),
            forall|x: Node<T>| !#[trigger] r.has_key(x),
            forall|x: Node<T>, root: Node<T>| !#[trigger] r.has_root(x, root),
    {
        let r = Frontier { entries: Vec::new(), forest };
        assert(r.keys() =~= Set::<Node<T>>::empty());
        r
    }

    /// The position of the entry for `n`, found by bus address.
    fn position(&self, n: &Node<T>) -> (r: Option<usize>)
        requires
            self.wf(),
            in_forest(self.forest@, *n),
        ensures
            match r {
                Some(i) => i < self.entries@.len() && self.key_at(i as int) == *n,
                None => !self.has_key(*n),
            },
    {
        let mut i: usize = 0;
        while i < self.entries.len()
            invariant
                self.wf(),
                in_forest(self.forest@, *n),
                i <= self.entries@.len(),
                forall|j: int| 0 <= j < i ==> #[trigger] self.key_at(j) != *n,
            decreases self.entries@.len() - i,
        {
            if same_address(self.entries[i].node, n) {
                proof {
                    lemma_forest_unique(self.forest@, self.key_at(i as int), *n);
                }
                return Some(i);
            }
            i = i + 1;
        }
        None
    }

    /// Adds `roots` to the roots of `n`, making `n` a node of the frontier if
    /// it is not one yet.
    pub fn add(&mut self, n: &'a Node<T>, roots: &Vec<&'a Node<T>>)
        requires
            old(self).wf(),
            in_forest(old(self).forest@, *n),
            all_in_forest(old(self).forest@, roots@),
        ensures
            final(self).wf(),
            final(self).forest == old(self).forest,
            forall|x: Node<T>| #[trigger] final(self).has_key(x) == (old(self).has_key(x) || x == *n),
            forall|x: Node<T>, r: Node<T>|
                #[trigger] final(self).has_root(x, r) == (old(self).has_root(x, r) || (x == *n && listed(roots@, r))),
    {
        let ghost forest = self.forest@;
        let ghost old_self = *self;
        match self.position(n) {
            None => {
                let mut fresh: Vec<&'a Node<T>> = Vec::new();
                merge_listed(&mut fresh, roots, Ghost(forest));
                self.entries.push(FrontierEntry { node: n, roots: fresh });
                proof {
                    let last = old_self.entries@.len() as int;
                    assert forall|j: int| 0 <= j < self.entries@.len() implies {
                        &&& in_forest(forest, #[trigger] self.key_at(j))
                        &&& all_in_forest(forest, self.roots_at(j))
                        &&& no_repeats(self.roots_at(j))
                    } by {
                        if j < last {
                            assert(self.key_at(j) == old_self.key_at(j));
                            assert(self.roots_at(j) == old_self.roots_at(j));
                        }
                    }
                    assert forall|j: int| 0 <= j < self.entries@.len() implies all_in_forest(forest, #[trigger] self.roots_at(j)) by {
                        assert(in_forest(forest, self.key_at(j)));
                    }
                    assert forall|j: int| 0 <= j < self.entries@.len() implies no_repeats(#[trigger] self.roots_at(j)) by {
                        assert(in_forest(forest, self.key_at(j)));
                    }
                    assert forall|j: int, l: int| 0 <= j < self.entries@.len() && 0 <= l < self.entries@.len() && j != l
                        implies #[trigger] self.key_at(j) != #[trigger] self.key_at(l) by {
                        if j < last && l < last {
                            assert(self.key_at(j) == old_self.key_at(j));
                            assert(self.key_at(l) == old_self.key_at(l));
                        } else if j < last {
                            assert(self.key_at(j) == old_self.key_at(j));
                            assert(old_self.has_key(self.key_at(j)));
                        } else {
                            assert(self.key_at(l) == old_self.key_at(l));
                            assert(old_self.has_key(self.key_at(l)));
                        }
                    }
                    assert forall|x: Node<T>| #[trigger] self.has_key(x) == (old_self.has_key(x) || x == *n) by {
                        if self.has_key(x) {
                            let i = choose|i: int| 0 <= i < self.entries@.len() && #[trigger] self.key_at(i) == x;
                            if i < old_self.entries@.len() {
                                assert(old_self.key_at(i) == x);
                            }
                        }
                        if old_self.has_key(x) {
                            let i = choose|i: int| 0 <= i < old_self.entries@.len() && #[trigger] old_self.key_at(i) == x;
                            assert(self.key_at(i) == x);
                        }
                        if x == *n {
                            assert(self.key_at(old_self.entries@.len() as int) == x);
                        }
                    }
                    assert forall|x: Node<T>, r: Node<T>|
                        #[trigger] self.has_root(x, r) == (old_self.has_root(x, r) || (x == *n && listed(roots@, r))) by {
                        if self.has_root(x, r) {
                            let i = choose|i: int| 0 <= i < self.entries@.len() && #[trigger] self.key_at(i) == x && listed(self.roots_at(i), r);
                            if i < old_self.entries@.len() {
                                assert(old_self.key_at(i) == x && listed(old_self.roots_at(i), r));
                            }
                        }
                        if old_self.has_root(x, r) {
                            let i = choose|i: int| 0 <= i < old_self.entries@.len() && #[trigger] old_self.key_at(i) == x && listed(old_self.roots_at(i), r);
                            assert(self.key_at(i) == x && listed(self.roots_at(i), r));
                        }
                        if x == *n && listed(roots@, r) {
                            let last = old_self.entries@.len() as int;
                            assert(self.key_at(last) == x);
                            assert(listed(self.roots_at(last), r));
                        }
                    }
                }
            },
            Some(i) => {
                assert(all_in_forest(forest, old_self.roots_at(i as int)));
                assert(no_repeats(old_self.roots_at(i as int)));
                merge_listed(&mut self.entries[i].roots, roots, Ghost(forest));
                proof {
                    assert forall|j: int| 0 <= j < self.entries@.len() implies {
                        &&& in_forest(forest, #[trigger] self.key_at(j))
                        &&& all_in_forest(forest, self.roots_at(j))
                        &&& no_repeats(self.roots_at(j))
                    } by {
                        assert(self.key_at(j) == old_self.key_at(j));
                        if j != i {
                            assert(self.roots_at(j) == old_self.roots_at(j));
                        }
                    }
                    assert forall|j: int| 0 <= j < self.entries@.len() implies all_in_forest(forest, #[trigger] self.roots_at(j)) by {
                        assert(in_forest(forest, self.key_at(j)));
                    }
                    assert forall|j: int| 0 <= j < self.entries@.len() implies no_repeats(#[trigger] self.roots_at(j)) by {
                        assert(in_forest(forest, self.key_at(j)));
                    }
                    assert forall|j: int, l: int| 0 <= j < self.entries@.len() && 0 <= l < self.entries@.len() && j != l
                        implies #[trigger] self.key_at(j) != #[trigger] self.key_at(l) by {
                        assert(self.key_at(j) == old_self.key_at(j));
                        assert(self.key_at(l) == old_self.key_at(l));
                    }
                    assert forall|x: Node<T>| #[trigger] self.has_key(x) == (old_self.has_key(x) || x == *n) by {
                        if self.has_key(x) {
                            let j = choose|j: int| 0 <= j < self.entries@.len() && #[trigger] self.key_at(j) == x;
                            assert(old_self.key_at(j) == x);
                        }
                        if old_self.has_key(x) {
                            let j = choose|j: int| 0 <= j < old_self.entries@.len() && #[trigger] old_self.key_at(j) == x;
                            assert(self.key_at(j) == x);
                        }
                        if x == *n {
                            assert(self.key_at(i as int) == x);
                        }
                    }
                    assert forall|x: Node<T>, r: Node<T>|
                        #[trigger] self.has_root(x, r) == (old_self.has_root(x, r) || (x == *n && listed(roots@, r))) by {
                        if self.has_root(x, r) {
                            let j = choose|j: int| 0 <= j < self.entries@.len() && #[trigger] self.key_at(j) == x && listed(self.roots_at(j), r);
                            if j != i {
                                assert(old_self.key_at(j) == x && listed(old_self.roots_at(j), r));
                            }
                        }
                        if old_self.has_root(x, r) {
                            let j = choose|j: int| 0 <= j < old_self.entries@.len() && #[trigger] old_self.key_at(j) == x && listed(old_self.roots_at(j), r);
                            assert(self.key_at(j) == x && listed(self.roots_at(j), r));
                        }
                        if x == *n && listed(roots@, r) {
                            assert(self.key_at(i as int) == x && listed(self.roots_at(i as int), r));
                        }
                    }
                }
            },
        }
    }

    /// A copy of the frontier with only the entries whose flag in `keep` is set.
    fn filtered(&self, keep: &Vec<bool>) -> (r: Self)
        requires
            self.wf(),
            keep@.len() == self.entries@.len(),
        ensures
            r.wf(),
            r.forest == self.forest,
            forall|x: Node<T>|
                #[trigger] r.has_key(x) == exists|i: int|
                    0 <= i < self.entries@.len() && #[trigger] self.key_at(i) == x && keep@[i],
            forall|x: Node<T>, root: Node<T>|
                #[trigger] r.has_root(x, root) == exists|i: int|
                    0 <= i < self.entries@.len() && #[trigger] self.key_at(i) == x && keep@[i] && listed(
                        self.roots_at(i),
                        root,
                    ),
    {
        let mut r = Frontier { entries: Vec::new(), forest: self.forest };
        let ghost mut idx: Seq<int> = Seq::empty();
        let mut i: usize = 0;
        while i < self.entries.len()
            invariant
                self.wf(),
                keep@.len() == self.entries@.len(),
                r.forest == self.forest,
                i <= self.entries@.len(),
                idx.len() == r.entries@.len(),
                forall|l: int| 0 <= l < idx.len() ==> 0 <= #[trigger] idx[l] < i && keep@[idx[l]],
                forall|l: int, m: int| 0 <= l < m < idx.len() ==> #[trigger] idx[l] < #[trigger] idx[m],
                forall|l: int|
                    0 <= l < idx.len() ==> #[trigger] r.key_at(l) == self.key_at(idx[l]) && r.roots_at(l)
                        == self.roots_at(idx[l]),
                forall|j: int| 0 <= j < i && keep@[j] ==> exists|l: int| 0 <= l < idx.len() && #[trigger] idx[l] == j,
            decreases self.entries@.len() - i,
        {
            if keep[i] {
                let roots = copy_list(&self.entries[i].roots);
                let ghost before = r;
                r.entries.push(FrontierEntry { node: self.entries[i].node, roots });
                proof {
                    assert forall|l: int| 0 <= l < before.entries@.len() implies #[trigger] r.key_at(l) == before.key_at(l)
                        && r.roots_at(l) == before.roots_at(l) by {
                        assert(r.entries@[l] == before.entries@[l]);
                    }
                    let old_idx = idx;
                    idx = idx.push(i as int);
                    assert forall|j: int| 0 <= j < i + 1 && keep@[j] implies exists|l: int| 0 <= l < idx.len() && #[trigger] idx[l] == j by {
                        if j < i {
                            let l = choose|l: int| 0 <= l < old_idx.len() && #[trigger] old_idx[l] == j;
                            assert(idx[l] == j);
                        } else {
                            assert(idx[idx.len() - 1] == j);
                        }
                    }
                }
            } else {
                proof {
                    assert forall|j: int| 0 <= j < i + 1 && keep@[j] implies exists|l: int| 0 <= l < idx.len() && #[trigger] idx[l] == j by {
                        assert(j < i);
                    }
                }
            }
            i = i + 1;
        }
        proof {
            assert forall|l: int| 0 <= l < r.entries@.len() implies {
                &&& in_forest(r.forest@, #[trigger] r.key_at(l))
                &&& all_in_forest(r.forest@, r.roots_at(l))
                &&& no_repeats(r.roots_at(l))
            } by {
                assert(self.roots_at(idx[l]) == r.roots_at(l));
            }
            assert forall|l: int| 0 <= l < r.entries@.len() implies all_in_forest(r.forest@, #[trigger] r.roots_at(l)) by {
                assert(in_forest(r.forest@, r.key_at(l)));
            }
            assert forall|l: int| 0 <= l < r.entries@.len() implies no_repeats(#[trigger] r.roots_at(l)) by {
                assert(in_forest(r.forest@, r.key_at(l)));
            }
            assert forall|l: int, m: int| 0 <= l < r.entries@.len() && 0 <= m < r.entries@.len() && l != m
                implies #[trigger] r.key_at(l) != #[trigger] r.key_at(m) by {
                if l < m {
                    assert(idx[l] < idx[m]);
                } else {
                    assert(idx[m] < idx[l]);
                }
                assert(self.key_at(idx[l]) != self.key_at(idx[m]));
            }
            assert forall|x: Node<T>|
                #[trigger] r.has_key(x) == exists|i: int|
                    0 <= i < self.entries@.len() && #[trigger] self.key_at(i) == x && keep@[i] by {
                if r.has_key(x) {
                    let l = choose|l: int| 0 <= l < r.entries@.len() && #[trigger] r.key_at(l) == x;
                    assert(self.key_at(idx[l]) == x);
                }
                if exists|i: int| 0 <= i < self.entries@.len() && #[trigger] self.key_at(i) == x && keep@[i] {
                    let j = choose|i: int| 0 <= i < self.entries@.len() && #[trigger] self.key_at(i) == x && keep@[i];
                    let l = choose|l: int| 0 <= l < idx.len() && #[trigger] idx[l] == j;
                    assert(r.key_at(l) == x);
                }
            }
            assert forall|x: Node<T>, root: Node<T>|
                #[trigger] r.has_root(x, root) == exists|i: int|
                    0 <= i < self.entries@.len() && #[trigger] self.key_at(i) == x && keep@[i] && listed(
                        self.roots_at(i),
                        root,
                    ) by {
                if r.has_root(x, root) {
                    let l = choose|l: int| 0 <= l < r.entries@.len() && #[trigger] r.key_at(l) == x && listed(r.roots_at(l), root);
                    assert(self.key_at(idx[l]) == x);
                    assert(self.roots_at(idx[l]) == r.roots_at(l));
                }
                if exists|i: int|
                    0 <= i < self.entries@.len() && #[trigger] self.key_at(i) == x && keep@[i] && listed(
                        self.roots_at(i),
                        root,
                    ) {
                    let j = choose|i: int|
                        0 <= i < self.entries@.len() && #[trigger] self.key_at(i) == x && keep@[i] && listed(
                            self.roots_at(i),
                            root,
                        );
                    let l = choose|l: int| 0 <= l < idx.len() && #[trigger] idx[l] == j;
                    assert(r.key_at(l) == x);
                    assert(r.roots_at(l) == self.roots_at(j));
                }
            }
        }
        r
    }

    /// The entries whose node meets the predicate `p`.
    pub fn retain_matching(&self, p: &Predicate) -> (r: Self)
        requires
            self.wf(),
        ensures
            r.wf(),
            r.forest == self.forest,
            forall|x: Node<T>| #[trigger] r.has_key(x) == (self.has_key(x) && pred_holds(p@, x)),
            forall|x: Node<T>, root: Node<T>|
                #[trigger] r.has_root(x, root) == (self.has_root(x, root) && pred_holds(p@, x)),
    {
        let mut keep: Vec<bool> = Vec::new();
        let mut i: usize = 0;
        while i < self.entries.len()
            invariant
                i <= self.entries@.len(),
                keep@.len() == i,
                forall|j: int| 0 <= j < i ==> keep@[j] == pred_holds(p@, #[trigger] self.key_at(j)),
            decreases self.entries@.len() - i,
        {
            keep.push(p.apply(self.entries[i].node));
            i = i + 1;
        }
        self.filtered(&keep)
    }

    /// The entries whose node is listed in `v`.
    pub fn retain_listed(&self, v: &Vec<&'a Node<T>>) -> (r: Self)
        requires
            self.wf(),
            all_in_forest(self.forest@, v@),
        ensures
            r.wf(),
            r.forest == self.forest,
            forall|x: Node<T>| #[trigger] r.has_key(x) == (self.has_key(x) && listed(v@, x)),
            forall|x: Node<T>, root: Node<T>|
                #[trigger] r.has_root(x, root) == (self.has_root(x, root) && listed(v@, x)),
    {
        let mut keep: Vec<bool> = Vec::new();
        let mut i: usize = 0;
        while i < self.entries.len()
            invariant
                self.wf(),
                all_in_forest(self.forest@, v@),
                i <= self.entries@.len(),
                keep@.len() == i,
                forall|j: int| 0 <= j < i ==> keep@[j] == listed(v@, #[trigger] self.key_at(j)),
            decreases self.entries@.len() - i,
        {
            proof {
                assert(in_forest(self.forest@, self.key_at(i as int)));
            }
            let found = find_listed(v, self.entries[i].node, self.forest);
            keep.push(found.is_some());
            i = i + 1;
        }
        self.filtered(&keep)
    }

    /// The same nodes, each with itself as its only root.
    pub fn rerooted(&self) -> (r: Self)
        requires
            self.wf(),
        ensures
            r.wf(),
            r.forest == self.forest,
            forall|x: Node<T>| #[trigger] r.has_key(x) == self.has_key(x),
            forall|x: Node<T>, root: Node<T>| #[trigger] r.has_root(x, root) == (self.has_key(x) && root == x),
    {
        let mut r = Frontier { entries: Vec::new(), forest: self.forest };
        let mut i: usize = 0;
        while i < self.entries.len()
            invariant
                self.wf(),
                r.forest == self.forest,
                i <= self.entries@.len(),
                r.entries@.len() == i,
                forall|l: int| 0 <= l < i ==> #[trigger] r.key_at(l) == self.key_at(l) && r.roots_at(l).len() == 1
                    && *r.roots_at(l)[0] == self.key_at(l),
            decreases self.entries@.len() - i,
        {
            let n = self.entries[i].node;
            let mut roots: Vec<&'a Node<T>> = Vec::new();
            roots.push(n);
            let ghost before = r;
            r.entries.push(FrontierEntry { node: n, roots });
            proof {
                assert forall|l: int| 0 <= l < before.entries@.len() implies #[trigger] r.key_at(l) == before.key_at(l)
                    && r.roots_at(l) == before.roots_at(l) by {
                    assert(r.entries@[l] == before.entries@[l]);
                }
            }
            i = i + 1;
        }
        proof {
            assert forall|l: int| 0 <= l < r.entries@.len() implies {
                &&& in_forest(r.forest@, #[trigger] r.key_at(l))
                &&& all_in_forest(r.forest@, r.roots_at(l))
                &&& no_repeats(r.roots_at(l))
            } by {
                assert(in_forest(self.forest@, self.key_at(l)));
            }
            assert forall|l: int| 0 <= l < r.entries@.len() implies all_in_forest(r.forest@, #[trigger] r.roots_at(l)) by {
                assert(in_forest(r.forest@, r.key_at(l)));
            }
            assert forall|l: int| 0 <= l < r.entries@.len() implies no_repeats(#[trigger] r.roots_at(l)) by {
                assert(in_forest(r.forest@, r.key_at(l)));
            }
            assert forall|l: int, m: int| 0 <= l < r.entries@.len() && 0 <= m < r.entries@.len() && l != m
                implies #[trigger] r.key_at(l) != #[trigger] r.key_at(m) by {
                assert(self.key_at(l) != self.key_at(m));
            }
            assert forall|x: Node<T>| #[trigger] r.has_key(x) == self.has_key(x) by {
                if r.has_key(x) {
                    let l = choose|l: int| 0 <= l < r.entries@.len() && #[trigger] r.key_at(l) == x;
                    assert(self.key_at(l) == x);
                }
                if self.has_key(x) {
                    let l = choose|l: int| 0 <= l < self.entries@.len() && #[trigger] self.key_at(l) == x;
                    assert(r.key_at(l) == x);
                }
            }
            assert forall|x: Node<T>, root: Node<T>| #[trigger] r.has_root(x, root) == (self.has_key(x) && root == x) by {
                if r.has_root(x, root) {
                    let l = choose|l: int| 0 <= l < r.entries@.len() && #[trigger] r.key_at(l) == x && listed(r.roots_at(l), root);
                    assert(self.key_at(l) == x);
                }
                if self.has_key(x) && root == x {
                    let l = choose|l: int| 0 <= l < self.entries@.len() && #[trigger] self.key_at(l) == x;
                    assert(r.key_at(l) == x);
                    assert(*r.roots_at(l)[0] == root);
                    assert(listed(r.roots_at(l), root));
                }
            }
        }
        r
    }

    /// Every root of every node of the frontier, each once.
    pub fn all_roots(&self) -> (r: Vec<&'a Node<T>>)
        requires
            self.wf(),
        ensures
            all_in_forest(self.forest@, r@),
            no_repeats(r@),
            forall|root: Node<T>| #[trigger] listed(r@, root) == exists|x: Node<T>| #[trigger] self.has_root(x, root),
    {
        let mut r: Vec<&'a Node<T>> = Vec::new();
        let mut i: usize = 0;
        while i < self.entries.len()
            invariant
                self.wf(),
                i <= self.entries@.len(),
                all_in_forest(self.forest@, r@),
                no_repeats(r@),
                forall|root: Node<T>|
                    #[trigger] listed(r@, root) == exists|j: int| 0 <= j < i && listed(#[trigger] self.roots_at(j), root),
            decreases self.entries@.len() - i,
        {
            proof {
                assert(all_in_forest(self.forest@, self.roots_at(i as int)));
            }
            merge_listed(&mut r, &self.entries[i].roots, self.forest);
            proof {
                assert forall|root: Node<T>|
                    #[trigger] listed(r@, root) == exists|j: int| 0 <= j < i + 1 && listed(#[trigger] self.roots_at(j), root) by {
                    if exists|j: int| 0 <= j < i + 1 && listed(#[trigger] self.roots_at(j), root) {
                        let j = choose|j: int| 0 <= j < i + 1 && listed(#[trigger] self.roots_at(j), root);
                        if j < i {
                            assert(exists|j: int| 0 <= j < i && listed(#[trigger] self.roots_at(j), root));
                        }
                    }
                }
            }
            i = i + 1;
        }
        proof {
            assert forall|root: Node<T>| #[trigger] listed(r@, root) == exists|x: Node<T>| #[trigger] self.has_root(x, root) by {
                if listed(r@, root) {
                    let j = choose|j: int| 0 <= j < self.entries@.len() && listed(#[trigger] self.roots_at(j), root);
                    assert(self.has_root(self.key_at(j), root));
                }
                if exists|x: Node<T>| #[trigger] self.has_root(x, root) {
                    let x = choose|x: Node<T>| #[trigger] self.has_root(x, root);
                    let j = choose|j: int| 0 <= j < self.entries@.len() && #[trigger] self.key_at(j) == x && listed(self.roots_at(j), root);
                    assert(listed(self.roots_at(j), root));
                }
            }
        }
        r
    }

    /// The nodes of the frontier, each once.
    pub fn key_nodes(&self) -> (r: Vec<&'a Node<T>>)
        requires
            self.wf(),
        ensures
            all_in_forest(self.forest@, r@),
            no_repeats(r@),
            forall|x: Node<T>| #[trigger] listed(r@, x) == self.has_key(x),
    {
        let mut r: Vec<&'a Node<T>> = Vec::new();
        let mut i: usize = 0;
        while i < self.entries.len()
            invariant
                self.wf(),
                i <= self.entries@.len(),
                r@.len() == i,
                forall|l: int| 0 <= l < i ==> *#[trigger] r@[l] == self.key_at(l),
            decreases self.entries@.len() - i,
        {
            r.push(self.entries[i].node);
            i = i + 1;
        }
        proof {
            assert forall|l: int| 0 <= l < r@.len() implies in_forest(self.forest@, *#[trigger] r@[l]) by {
                assert(in_forest(self.forest@, self.key_at(l)));
            }
            assert forall|k: int, l: int| 0 <= k < r@.len() && 0 <= l < r@.len() && k != l implies *#[trigger] r@[k] != *#[trigger] r@[l] by {
                assert(self.key_at(k) != self.key_at(l));
            }
            assert forall|x: Node<T>| #[trigger] listed(r@, x) == self.has_key(x) by {
                if listed(r@, x) {
                    let l = choose|l: int| 0 <= l < r@.len() && *#[trigger] r@[l] == x;
                    assert(self.key_at(l) == x);
                }
                if self.has_key(x) {
                    let l = choose|l: int| 0 <= l < self.entries@.len() && #[trigger] self.key_at(l) == x;
                    assert(*r@[l] == x);
                }
            }
        }
        r
    }

    /// The roots of a forest, each with no roots of its own.
    pub fn from_roots(devices: &'a Vec<Node<T>>) -> (r: Self)
        requires
            wf_forest(devices@),
        ensures
            r.wf(),
            r.forest@ == devices@,
            forall|x: Node<T>| #[trigger] r.has_key(x) == devices@.contains(x),
            forall|x: Node<T>, root: Node<T>| !#[trigger] r.has_root(x, root),
    {
        let mut r = Frontier::empty(Ghost(devices@));
        let none: Vec<&'a Node<T>> = Vec::new();
        let mut i: usize = 0;
        while i < devices.len()
            invariant
                r.wf(),
                r.forest@ == devices@,
                none@.len() == 0,
                i <= devices@.len(),
                forall|x: Node<T>| #[trigger] r.has_key(x) == exists|j: int| 0 <= j < i && devices@[j] == x,
                forall|x: Node<T>, root: Node<T>| !#[trigger] r.has_root(x, root),
            decreases devices@.len() - i,
        {
            proof {
                lemma_subtree_self(devices@[i as int]);
                assert(in_forest(devices@, devices@[i as int]));
            }
            r.add(&devices[i], &none);
            proof {
                assert forall|x: Node<T>| #[trigger] r.has_key(x) == exists|j: int| 0 <= j < i + 1 && devices@[j] == x by {
                    if exists|j: int| 0 <= j < i + 1 && devices@[j] == x {
                        let j = choose|j: int| 0 <= j < i + 1 && devices@[j] == x;
                        if j < i {
                            assert(exists|j: int| 0 <= j < i && devices@[j] == x);
                        }
                    }
                }
            }
            i = i + 1;
        }
        proof {
            assert forall|x: Node<T>| #[trigger] r.has_key(x) == devices@.contains(x) by {
                if devices@.contains(x) {
                    let j = choose|j: int| 0 <= j < devices@.len() && devices@[j] == x;
                    assert(exists|j: int| 0 <= j < i && devices@[j] == x);
                }
            }
        }
        r
    }
}

/// A copy of a list of nodes.
fn copy_list<'a, T>(v: &Vec<&'a Node<T>>) -> (r: Vec<&'a Node<T>>)
    ensures
        r@ == v@,
{
    let mut r: Vec<&'a Node<T>> = Vec::new();
    let mut i: usize = 0;
    while i < v.len()
        invariant
            i <= v@.len(),
            r@ == v@.subrange(0, i as int),
        decreases v@.len() - i,
    {
        r.push(v[i]);
        i = i + 1;
    }
    assert(r@ =~= v@);
    r
}

} // verus!
