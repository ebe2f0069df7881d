//! The USB device tree: hubs and devices, each addressed by the chain of
//! ports that leads from its bus to it.

use vstd::prelude::*;

use crate::frontier::{all_in_forest, listed, same_address, Frontier};
use crate::semantics::reach_mode;
use crate::parser::scan::lit_at;
use crate::text::{chars_of, decimal, hex4, push_char, push_chars, push_decimal, push_hex4, push_str};

verus! {

/// The number of a port on a hub (or, for a root, of its bus).
#[derive(Debug, Copy, Clone, Hash, PartialEq, Eq, PartialOrd, Ord, Structural)]
pub struct PortNumber(pub u8);

/// Whether a node of the tree is a hub or some other device.
#[derive(Debug, Clone, Copy, PartialEq, Eq, Structural)]
pub enum NodeType {
    Hub,
    Device,
}

/// The node type whose name is `name`: `hub` or `device`.
pub open spec fn node_type_named(name: Seq<char>) -> Option<NodeType> {
    if name == seq!['h', 'u', 'b'] {
        Some(NodeType::Hub)
    } else if name == seq!['d', 'e', 'v', 'i', 'c', 'e'] {
        Some(NodeType::Device)
    } else {
        None
    }
}

/// The node type whose name is `name`.
pub fn node_type_from_name(name: &str) -> (r: Option<NodeType>)
    ensures
        r == node_type_named(name@),
{
    let cs = chars_of(name);
    let n = cs.len();
    assert(cs@.subrange(0, n as int) =~= cs@);
    let hub = ['h', 'u', 'b'];
    let device = ['d', 'e', 'v', 'i', 'c', 'e'];
    assert(hub@ == seq!['h', 'u', 'b']);
    assert(device@ == seq!['d', 'e', 'v', 'i', 'c', 'e']);
    if n == 3 && lit_at(&cs, 0, &hub) {
        Some(NodeType::Hub)
    } else if n == 6 && lit_at(&cs, 0, &device) {
        Some(NodeType::Device)
    } else {
        None
    }
}

/// Reads `hub` or `device`; any other text is an error.
impl std::str::FromStr for NodeType {
    type Err = ();

    fn from_str(s: &str) -> (r: Result<NodeType, ()>)
        ensures
            r == match node_type_named(s@) {
                Some(t) => Ok::<NodeType, ()>(t),
                None => Err::<NodeType, ()>(()),
            },
    {
        match node_type_from_name(s) {
            Some(t) => Ok(t),
            None => Err(()),
        }
    }
}

/// One node of the device tree.
///
/// `children` holds the nodes attached to this one, each at its own port and
/// in the order of the ports; the bus address of a child is the bus address
/// of its parent followed by the child's port (see [`wf_node`]).
#[verifier::reject_recursive_types(T)]
pub struct Node<T> {
    pub children: Vec<Node<T>>,
    pub node_type: NodeType,
    pub bus_address: Vec<PortNumber>,
    pub vendor_id: u16,
    pub product_id: u16,
    pub serial_number: Option<String>,
    pub manufacturer: Option<String>,
    pub product: Option<String>,
    pub userdata: Option<T>,
}

/// The port of a node: the last entry of its bus address, or port 0 for a
/// node whose bus address is empty.
pub open spec fn port_of<T>(n: Node<T>) -> PortNumber {
    if n.bus_address@.len() > 0 {
        n.bus_address@.last()
    } else {
        PortNumber(0)
    }
}

impl<T> Node<T> {
    /// The port number of this node within its parent.
    pub fn port_number(&self) -> (r: PortNumber)
        ensures
            r == port_of(*self),
    {
        let n = self.bus_address.len();
        if n > 0 {
            self.bus_address[n - 1]
        } else {
            PortNumber(0)
        }
    }
}


/// `x` is one of the nodes attached directly to `n`.
pub open spec fn is_child<T>(x: Node<T>, n: Node<T>) -> bool {
    exists|i: int| 0 <= i < n.children@.len() && n.children@[i] == x
}

/// The node reached from `n` by following `path`, a sequence of positions in
/// the children lists, or `None` where a position is out of range.
pub open spec fn node_at<T>(n: Node<T>, path: Seq<int>) -> Option<Node<T>>
    decreases path.len(),
{
    if path.len() == 0 {
        Some(n)
    } else if 0 <= path[0] < n.children@.len() {
        node_at(n.children@[path[0]], path.drop_first())
    } else {
        None
    }
}

/// `x` is `n` or lies somewhere below it.
pub open spec fn in_subtree<T>(x: Node<T>, n: Node<T>) -> bool {
    exists|path: Seq<int>| #[trigger] node_at(n, path) == Some(x)
}

/// `x` lies strictly below `n`.
pub open spec fn is_descendant<T>(x: Node<T>, n: Node<T>) -> bool {
    exists|i: int| 0 <= i < n.children@.len() && #[trigger] in_subtree(x, n.children@[i])
}

/// `x` is one of the nodes of the forest whose roots are `roots`.
pub open spec fn in_forest<T>(roots: Seq<Node<T>>, x: Node<T>) -> bool {
    exists|i: int| 0 <= i < roots.len() && #[trigger] in_subtree(x, roots[i])
}

/// `a` is a prefix of `b`.
pub open spec fn is_prefix(a: Seq<PortNumber>, b: Seq<PortNumber>) -> bool {
    a.len() <= b.len() && b.subrange(0, a.len() as int) == a
}

/// The bus address of `c` is that of `parent` followed by one more port.
pub open spec fn extends_address<T>(parent: Node<T>, c: Node<T>) -> bool {
    &&& c.bus_address@.len() == parent.bus_address@.len() + 1
    &&& c.bus_address@.drop_last() == parent.bus_address@
}

/// The children of `n` extend its bus address, each by its own port, and
/// come in the order of their ports.
pub open spec fn wf_children<T>(n: Node<T>) -> bool {
    &&& forall|i: int| 0 <= i < n.children@.len() ==> extends_address(n, #[trigger] n.children@[i])
    &&& forall|i: int, j: int|
        0 <= i < j < n.children@.len() ==> port_of(#[trigger] n.children@[i]).0 < port_of(
            #[trigger] n.children@[j],
        ).0
}

/// A well-formed subtree: at every node, each child's bus address extends
/// its parent's by the child's port, and the children come in the order of
/// their ports, so no two sit on the same port.
pub open spec fn wf_node<T>(n: Node<T>) -> bool {
    forall|path: Seq<int>| #[trigger] node_at(n, path) matches Some(m) ==> wf_children(m)
}

/// A well-formed forest: well-formed trees whose root addresses are not
/// prefixes of one another, so that a bus address names at most one node.
pub open spec fn wf_forest<T>(roots: Seq<Node<T>>) -> bool {
    &&& forall|i: int| 0 <= i < roots.len() ==> #[trigger] wf_node(roots[i])
    &&& forall|i: int, j: int|
        0 <= i < roots.len() && 0 <= j < roots.len() && i != j ==> !is_prefix(
            #[trigger] roots[i].bus_address@,
            #[trigger] roots[j].bus_address@,
        )
}

/// Following `p` and then `q` is following `p + q`.
pub proof fn lemma_node_at_concat<T>(n: Node<T>, p: Seq<int>, q: Seq<int>)
    requires
        node_at(n, p) is Some,
    ensures
        node_at(n, p + q) == node_at(node_at(n, p).unwrap(), q),
    decreases p.len(),
{
    if p.len() == 0 {
        assert(p + q =~= q);
    } else {
        assert((p + q).drop_first() =~= p.drop_first() + q);
        lemma_node_at_concat(n.children@[p[0]], p.drop_first(), q);
    }
}

/// A node lies in the subtree of `n` iff it is `n` or lies in the subtree of
/// one of the children of `n`.
pub proof fn lemma_subtree_unfold<T>(x: Node<T>, n: Node<T>)
    ensures
        in_subtree(x, n) == (x == n || exists|i: int|
            0 <= i < n.children@.len() && #[trigger] in_subtree(x, n.children@[i])),
{
    if in_subtree(x, n) && x != n {
        let p = choose|p: Seq<int>| #[trigger] node_at(n, p) == Some(x);
        assert(p.len() > 0);
        let i = p[0];
        assert(node_at(n.children@[i], p.drop_first()) == Some(x));
        assert(in_subtree(x, n.children@[i]));
    }
    if exists|i: int| 0 <= i < n.children@.len() && #[trigger] in_subtree(x, n.children@[i]) {
        let i = choose|i: int| 0 <= i < n.children@.len() && #[trigger] in_subtree(x, n.children@[i]);
        let q = choose|q: Seq<int>| #[trigger] node_at(n.children@[i], q) == Some(x);
        let p = seq![i] + q;
        assert(p.drop_first() =~= q);
        assert(node_at(n, p) == Some(x));
    }
    if x == n {
        assert(node_at(n, Seq::<int>::empty()) == Some(n));
    }
}

/// A node is well formed iff its children are placed well and are well formed.
pub proof fn lemma_wf_unfold<T>(n: Node<T>)
    ensures
        wf_node(n) == (wf_children(n) && forall|i: int|
            0 <= i < n.children@.len() ==> #[trigger] wf_node(n.children@[i])),
{
    if wf_node(n) {
        assert(node_at(n, Seq::<int>::empty()) == Some(n));
        assert forall|i: int| 0 <= i < n.children@.len() implies #[trigger] wf_node(n.children@[i]) by {
            assert forall|q: Seq<int>| #[trigger] node_at(n.children@[i], q) is Some implies wf_children(node_at(n.children@[i], q).unwrap()) by {
                let p = seq![i] + q;
                assert(p.drop_first() =~= q);
                assert(node_at(n, p) == node_at(n.children@[i], q));
            }
        }
    }
    if wf_children(n) && forall|i: int| 0 <= i < n.children@.len() ==> #[trigger] wf_node(n.children@[i]) {
        assert forall|p: Seq<int>| #[trigger] node_at(n, p) is Some implies wf_children(node_at(n, p).unwrap()) by {
            if p.len() > 0 {
                assert(wf_node(n.children@[p[0]]));
                assert(node_at(n.children@[p[0]], p.drop_first()) == node_at(n, p));
            }
        }
    }
}

/// A node lies in its own subtree, and so do its children.
pub proof fn lemma_subtree_self<T>(n: Node<T>)
    ensures
        in_subtree(n, n),
        forall|i: int| 0 <= i < n.children@.len() ==> in_subtree(#[trigger] n.children@[i], n),
{
    assert(node_at(n, Seq::<int>::empty()) == Some(n));
    assert forall|i: int| 0 <= i < n.children@.len() implies in_subtree(#[trigger] n.children@[i], n) by {
        let c = n.children@[i];
        assert(node_at(c, Seq::<int>::empty()) == Some(c));
        lemma_subtree_unfold(c, n);
        lemma_subtree_unfold(c, c);
    }
}

proof fn lemma_prefix_trans(a: Seq<PortNumber>, b: Seq<PortNumber>, c: Seq<PortNumber>)
    requires
        is_prefix(a, b),
        is_prefix(b, c),
    ensures
        is_prefix(a, c),
{
    assert(c.subrange(0, a.len() as int) =~= b.subrange(0, a.len() as int));
}

/// Every node of a well-formed subtree is well formed, and its bus address
/// extends that of the subtree's root (strictly, unless it is the root).
pub proof fn lemma_subtree_address<T>(n: Node<T>, x: Node<T>)
    requires
        wf_node(n),
        in_subtree(x, n),
    ensures
        wf_node(x),
        is_prefix(n.bus_address@, x.bus_address@),
        x != n ==> x.bus_address@.len() > n.bus_address@.len(),
    decreases n,
{
    lemma_subtree_unfold(x, n);
    lemma_wf_unfold(n);
    if x == n {
        assert(n.bus_address@.subrange(0, n.bus_address@.len() as int) =~= n.bus_address@);
    } else {
        let i = choose|i: int| 0 <= i < n.children@.len() && #[trigger] in_subtree(x, n.children@[i]);
        let c = n.children@[i];
        lemma_subtree_address(c, x);
        assert(extends_address(n, c));
        assert(c.bus_address@.subrange(0, n.bus_address@.len() as int) =~= c.bus_address@.drop_last());
        lemma_prefix_trans(n.bus_address@, c.bus_address@, x.bus_address@);
    }
}

/// Within a well-formed subtree a bus address names at most one node.
pub proof fn lemma_subtree_unique<T>(n: Node<T>, x: Node<T>, y: Node<T>)
    requires
        wf_node(n),
        in_subtree(x, n),
        in_subtree(y, n),
        x.bus_address@ == y.bus_address@,
    ensures
        x == y,
    decreases n,
{
    lemma_subtree_address(n, x);
    lemma_subtree_address(n, y);
    if x != n && y != n {
        lemma_subtree_unfold(x, n);
        lemma_subtree_unfold(y, n);
        lemma_wf_unfold(n);
        let i = choose|i: int| 0 <= i < n.children@.len() && #[trigger] in_subtree(x, n.children@[i]);
        let j = choose|j: int| 0 <= j < n.children@.len() && #[trigger] in_subtree(y, n.children@[j]);
        let ci = n.children@[i];
        let cj = n.children@[j];
        lemma_subtree_address(ci, x);
        lemma_subtree_address(cj, y);
        assert(extends_address(n, ci));
        assert(extends_address(n, cj));
        let k = n.bus_address@.len() as int;
        assert(ci.bus_address@[k] == x.bus_address@.subrange(0, ci.bus_address@.len() as int)[k]);
        assert(cj.bus_address@[k] == y.bus_address@.subrange(0, cj.bus_address@.len() as int)[k]);
        if i < j {
            assert(port_of(ci).0 < port_of(cj).0);
        } else if j < i {
            assert(port_of(cj).0 < port_of(ci).0);
        }
        lemma_subtree_unique(ci, x, y);
    }
}

/// Within a well-formed forest a bus address names at most one node.
pub proof fn lemma_forest_unique<T>(roots: Seq<Node<T>>, x: Node<T>, y: Node<T>)
    requires
        wf_forest(roots),
        in_forest(roots, x),
        in_forest(roots, y),
        x.bus_address@ == y.bus_address@,
    ensures
        x == y,
{
    let i = choose|i: int| 0 <= i < roots.len() && #[trigger] in_subtree(x, roots[i]);
    let j = choose|j: int| 0 <= j < roots.len() && #[trigger] in_subtree(y, roots[j]);
    assert(wf_node(roots[i]));
    assert(wf_node(roots[j]));
    lemma_subtree_address(roots[i], x);
    lemma_subtree_address(roots[j], y);
    if i != j {
        let a = roots[i].bus_address@;
        let b = roots[j].bus_address@;
        if a.len() <= b.len() {
            assert(x.bus_address@.subrange(0, a.len() as int) =~= b.subrange(0, a.len() as int));
            assert(is_prefix(a, b));
        } else {
            assert(y.bus_address@.subrange(0, b.len() as int) =~= a.subrange(0, b.len() as int));
            assert(is_prefix(b, a));
        }
        assert(false);
    }
    lemma_subtree_unique(roots[i], x, y);
}

/// The children of a node of a forest belong to the forest too, and so does
/// everything below them.
pub proof fn lemma_forest_below<T>(roots: Seq<Node<T>>, n: Node<T>, x: Node<T>)
    requires
        in_forest(roots, n),
        in_subtree(x, n),
    ensures
        in_forest(roots, x),
{
    let i = choose|i: int| 0 <= i < roots.len() && #[trigger] in_subtree(n, roots[i]);
    lemma_subtree_trans(roots[i], n, x);
}

/// `in_subtree` is transitive.
pub proof fn lemma_subtree_trans<T>(r: Node<T>, n: Node<T>, x: Node<T>)
    requires
        in_subtree(n, r),
        in_subtree(x, n),
    ensures
        in_subtree(x, r),
    decreases r,
{
    if n != r {
        lemma_subtree_unfold(n, r);
        let i = choose|i: int| 0 <= i < r.children@.len() && #[trigger] in_subtree(n, r.children@[i]);
        lemma_subtree_trans(r.children@[i], n, x);
        lemma_subtree_unfold(x, r);
    }
}


/// `x` is reached from `n` through its first `i` children: `n` itself when
/// `with_self`, one of those children, or, when `with_descendants`, a node
/// below one of them.
pub open spec fn reach_upto<T>(n: Node<T>, x: Node<T>, with_self: bool, with_descendants: bool, i: int) -> bool {
    ||| with_self && x == n
    ||| exists|j: int|
        #![trigger n.children@[j]]
        0 <= j < i && (x == n.children@[j] || (with_descendants && in_subtree(x, n.children@[j])))
}

proof fn lemma_reach_upto_all<T>(n: Node<T>, x: Node<T>, s: bool, d: bool)
    ensures
        reach_upto(n, x, s, d, n.children@.len() as int) == reach_mode(n, x, s, d),
{
    lemma_subtree_self(n);
    if reach_mode(n, x, s, d) && !(s && x == n) {
        if is_child(x, n) {
            let j = choose|j: int| 0 <= j < n.children@.len() && n.children@[j] == x;
            assert(x == n.children@[j]);
        } else {
            let j = choose|j: int| 0 <= j < n.children@.len() && #[trigger] in_subtree(x, n.children@[j]);
            assert(in_subtree(x, n.children@[j]));
        }
    }
    if reach_upto(n, x, s, d, n.children@.len() as int) && !(s && x == n) {
        let j = choose|j: int|
            #![trigger n.children@[j]] 0 <= j < n.children@.len() && (x == n.children@[j] || (d && in_subtree(x, n.children@[j])));
        if x == n.children@[j] {
            assert(is_child(x, n));
        } else {
            assert(is_descendant(x, n));
        }
    }
}

proof fn lemma_reach_upto_next<T>(n: Node<T>, x: Node<T>, s: bool, d: bool, i: int)
    requires
        0 <= i < n.children@.len(),
    ensures
        reach_upto(n, x, s, d, i + 1) == (reach_upto(n, x, s, d, i) || x == n.children@[i]
            || (d && reach_mode(n.children@[i], x, false, true))),
{
    let c = n.children@[i];
    lemma_subtree_unfold(x, c);
    lemma_subtree_self(c);
    if d && reach_mode(c, x, false, true) {
        if is_child(x, c) {
            let j = choose|j: int| 0 <= j < c.children@.len() && c.children@[j] == x;
            assert(in_subtree(c.children@[j], c));
        }
        assert(in_subtree(x, c));
    }
    if d && in_subtree(x, c) && x != c {
        assert(is_descendant(x, c));
    }
    if reach_upto(n, x, s, d, i + 1) && !(s && x == n) {
        let j = choose|j: int|
            #![trigger n.children@[j]] 0 <= j < i + 1 && (x == n.children@[j] || (d && in_subtree(x, n.children@[j])));
        if j < i {
            assert(reach_upto(n, x, s, d, i));
        }
    }
    if reach_upto(n, x, s, d, i) && !(s && x == n) {
        let j = choose|j: int|
            #![trigger n.children@[j]] 0 <= j < i && (x == n.children@[j] || (d && in_subtree(x, n.children@[j])));
        assert(0 <= j < i + 1 && (x == n.children@[j] || (d && in_subtree(x, n.children@[j]))));
    }
    if x == c {
        assert(0 <= i < i + 1 && x == n.children@[i]);
    }
    if d && in_subtree(x, c) {
        assert(0 <= i < i + 1 && (d && in_subtree(x, n.children@[i])));
    }
}

impl<T> Node<T> {
    /// Adds to `out`, with the roots `roots`, the nodes reached from `node`:
    /// `node` itself when `include_self`, its children, and, when
    /// `include_descendants`, every node below it.
    pub fn collect_children<'a>(
        out: &mut Frontier<'a, T>,
        node: &'a Node<T>,
        roots: &Vec<&'a Node<T>>,
        include_self: bool,
        include_descendants: bool,
    )
        requires
            old(out).wf(),
            in_forest(old(out).forest@, *node),
            all_in_forest(old(out).forest@, roots@),
        ensures
            final(out).wf(),
            final(out).forest == old(out).forest,
            forall|x: Node<T>|
                #[trigger] final(out).has_key(x) == (old(out).has_key(x) || reach_mode(
                    *node,
                    x,
                    include_self,
                    include_descendants,
                )),
            forall|x: Node<T>, r: Node<T>|
                #[trigger] final(out).has_root(x, r) == (old(out).has_root(x, r) || (reach_mode(
                    *node,
                    x,
                    include_self,
                    include_descendants,
                ) && listed(roots@, r))),
        decreases node,
    {
        let ghost forest = out.forest@;
        let ghost start = *out;
        let ghost s = include_self;
        let ghost d = include_descendants;
        proof {
            lemma_subtree_self(*node);
        }
        if include_self {
            out.add(node, roots);
        }
        let mut i: usize = 0;
        while i < node.children.len()
            invariant
                out.wf(),
                out.forest@ == forest,
                start.forest@ == forest,
                in_forest(forest, *node),
                all_in_forest(forest, roots@),
                s == include_self,
                d == include_descendants,
                i <= node.children@.len(),
                forall|j: int| 0 <= j < node.children@.len() ==> in_subtree(#[trigger] node.children@[j], *node),
                forall|x: Node<T>| #[trigger] out.has_key(x) == (start.has_key(x) || reach_upto(*node, x, s, d, i as int)),
                forall|x: Node<T>, r: Node<T>|
                    #[trigger] out.has_root(x, r) == (start.has_root(x, r) || (reach_upto(*node, x, s, d, i as int)
                        && listed(roots@, r))),
            decreases node.children@.len() - i,
        {
            let child = &node.children[i];
            proof {
                lemma_forest_below(forest, *node, *child);
            }
            let ghost before = *out;
            out.add(child, roots);
            if include_descendants {
                Node::collect_children(out, child, roots, false, true);
            }
            proof {
                assert forall|x: Node<T>| #[trigger] out.has_key(x) == (start.has_key(x) || reach_upto(*node, x, s, d, i + 1)) by {
                    lemma_reach_upto_next(*node, x, s, d, i as int);
                }
                assert forall|x: Node<T>, r: Node<T>|
                    #[trigger] out.has_root(x, r) == (start.has_root(x, r) || (reach_upto(*node, x, s, d, i + 1)
                        && listed(roots@, r))) by {
                    lemma_reach_upto_next(*node, x, s, d, i as int);
                }
            }
            i = i + 1;
        }
        proof {
            assert forall|x: Node<T>| #[trigger] out.has_key(x) == (start.has_key(x) || reach_mode(*node, x, s, d)) by {
                lemma_reach_upto_all(*node, x, s, d);
            }
            assert forall|x: Node<T>, r: Node<T>|
                #[trigger] out.has_root(x, r) == (start.has_root(x, r) || (reach_mode(*node, x, s, d)
                    && listed(roots@, r))) by {
                lemma_reach_upto_all(*node, x, s, d);
            }
        }
    }
}

/// A bus address spelled as its ports in decimal, joined by dots.
pub open spec fn address_text(a: Seq<PortNumber>) -> Seq<char>
    decreases a.len(),
{
    if a.len() == 0 {
        seq![]
    } else if a.len() == 1 {
        decimal(a[0].0 as nat)
    } else {
        address_text(a.drop_last()) + seq!['.'] + decimal(a.last().0 as nat)
    }
}

/// The name of a node type, as `Debug` spells it.
pub open spec fn node_type_text(t: NodeType) -> Seq<char> {
    match t {
        NodeType::Hub => seq!['H', 'u', 'b'],
        NodeType::Device => seq!['D', 'e', 'v', 'i', 'c', 'e'],
    }
}

/// The manufacturer and product names, each after a space.
pub open spec fn names_text(manufacturer: Option<String>, product: Option<String>) -> Seq<char> {
    match (manufacturer, product) {
        (Some(m), Some(p)) => seq![' '] + m@ + seq![' '] + p@,
        (Some(m), None) => seq![' '] + m@,
        (None, Some(p)) => seq![' '] + p@,
        (None, None) => seq![],
    }
}

/// The serial number, in parentheses.
pub open spec fn serial_text(serial: Option<String>) -> Seq<char> {
    match serial {
        Some(s) => seq![' ', '(', 'S', 'e', 'r', 'i', 'a', 'l', ':', ' '] + s@ + seq![')'],
        None => seq![],
    }
}

/// One line describing a node: `[address] ID vvvv:pppp names (Serial: s) (Type)`,
/// with the full bus address or only the node's port.
pub open spec fn format_text<T>(n: Node<T>, full_bus_address: bool) -> Seq<char> {
    seq!['['] + (if full_bus_address {
        address_text(n.bus_address@)
    } else {
        decimal(port_of(n).0 as nat)
    }) + seq![']', ' ', 'I', 'D', ' '] + hex4(n.vendor_id) + seq![':'] + hex4(n.product_id) + names_text(
        n.manufacturer,
        n.product,
    ) + serial_text(n.serial_number) + seq![' ', '('] + node_type_text(n.node_type) + seq![')']
}

impl<T> Node<T> {
    /// The line that describes this node, with its full bus address or only
    /// its port number.
    #[verifier::spinoff_prover]
    #[verifier::rlimit(40)]
    pub fn format(&self, full_bus_address: bool) -> (r: String)
        ensures
            r@ == format_text(*self, full_bus_address),
    {
        let mut result = String::new();
        push_char(&mut result, '[');
        let ghost before_address = result@;
        if full_bus_address {
            let n = self.bus_address.len();
            let mut i: usize = 0;
            while i < n
                invariant
                    n == self.bus_address@.len(),
                    i <= n,
                    result@ == before_address + address_text(self.bus_address@.subrange(0, i as int)),
                decreases n - i,
            {
                let ghost a = self.bus_address@.subrange(0, i + 1);
                assert(a.drop_last() =~= self.bus_address@.subrange(0, i as int));
                if i > 0 {
                    push_char(&mut result, '.');
                }
                push_decimal(&mut result, self.bus_address[i].0 as u16);
                i = i + 1;
                proof {
                    if i == 1 {
                        assert(self.bus_address@.subrange(0, 0) =~= Seq::<PortNumber>::empty());
                    }
                    assert(result@ =~= before_address + address_text(self.bus_address@.subrange(0, i as int)));
                }
            }
            assert(self.bus_address@.subrange(0, n as int) =~= self.bus_address@);
        } else {
            push_decimal(&mut result, self.port_number().0 as u16);
        }
        push_chars(&mut result, &[']', ' ', 'I', 'D', ' ']);
        push_hex4(&mut result, self.vendor_id);
        push_char(&mut result, ':');
        push_hex4(&mut result, self.product_id);
        let ghost before_names = result@;
        match (&self.manufacturer, &self.product) {
            (Some(manufacturer), Some(product)) => {
                push_char(&mut result, ' ');
                result.append(manufacturer.as_str());
                push_char(&mut result, ' ');
                result.append(product.as_str());
            },
            (Some(manufacturer), None) => {
                push_char(&mut result, ' ');
                result.append(manufacturer.as_str());
            },
            (None, Some(product)) => {
                push_char(&mut result, ' ');
                result.append(product.as_str());
            },
            (None, None) => {},
        }
        assert(result@ =~= before_names + names_text(self.manufacturer, self.product));
        let ghost before_serial = result@;
        if let Some(serial) = &self.serial_number {
            push_chars(&mut result, &[' ', '(', 'S', 'e', 'r', 'i', 'a', 'l', ':', ' ']);
            result.append(serial.as_str());
            push_char(&mut result, ')');
        }
        assert(result@ =~= before_serial + serial_text(self.serial_number));
        push_chars(&mut result, &[' ', '(']);
        match self.node_type {
            NodeType::Hub => push_chars(&mut result, &['H', 'u', 'b']),
            NodeType::Device => push_chars(&mut result, &['D', 'e', 'v', 'i', 'c', 'e']),
        }
        push_char(&mut result, ')');
        assert(result@ =~= format_text(*self, full_bus_address));
        result
    }
}

/// Two spaces for each level of depth.
pub open spec fn indent(depth: nat) -> Seq<char>
    decreases depth,
{
    if depth == 0 {
        seq![]
    } else {
        indent((depth - 1) as nat) + seq![' ', ' ']
    }
}

/// The tree under `n` as an indented listing: the line of `n`, indented by
/// `depth`, then the listings of its children one level deeper.
pub open spec fn dump_text<T>(n: Node<T>, depth: nat) -> Seq<char>
    decreases n, 1int, 0int,
{
    indent(depth) + format_text(n, false) + seq!['\n'] + children_dump(n, n.children@.len() as int, depth)
}

/// The listings of the first `k` children of `n`, at `depth + 1`.
pub open spec fn children_dump<T>(n: Node<T>, k: int, depth: nat) -> Seq<char>
    decreases n, 0int, k,
{
    if k <= 0 || k > n.children@.len() {
        seq![]
    } else {
        children_dump(n, k - 1, depth) + dump_text(n.children@[k - 1], depth + 1)
    }
}

impl<T> Node<T> {
    /// The tree under this node as an indented listing, one line per node,
    /// each indented by two spaces per level below `depth`. The children of
    /// a node are listed in the order of `children`, which for a
    /// well-formed node (see [`wf_node`]) is the order of their ports.
    pub fn dump(&self, depth: u32) -> (r: String)
        requires
            forall|path: Seq<int>| #[trigger] node_at(*self, path) is Some ==> depth + path.len() <= u32::MAX,
        ensures
            r@ == dump_text(*self, depth as nat),
        decreases self,
    {
        let mut out = String::new();
        let mut i: u32 = 0;
        while i < depth
            invariant
                i <= depth,
                out@ == indent(i as nat),
            decreases depth - i,
        {
            push_char(&mut out, ' ');
            push_char(&mut out, ' ');
            i = i + 1;
            assert(out@ =~= indent(i as nat));
        }
        let line = self.format(false);
        push_str(&mut out, line.as_str());
        push_char(&mut out, '\n');
        let ghost head = out@;
        assert(head =~= indent(depth as nat) + format_text(*self, false) + seq!['\n']);
        let mut k: usize = 0;
        while k < self.children.len()
            invariant
                k <= self.children@.len(),
                forall|path: Seq<int>| #[trigger] node_at(*self, path) is Some ==> depth + path.len() <= u32::MAX,
                out@ == head + children_dump(*self, k as int, depth as nat),
            decreases self.children@.len() - k,
        {
            let child = &self.children[k];
            assert(node_at(*self, seq![k as int]) == Some(*child)) by {
                let one = seq![k as int];
                assert(one.drop_first() =~= Seq::<int>::empty());
                assert(node_at(*child, Seq::<int>::empty()) == Some(*child));
                assert(one[0] == k as int);
                assert(node_at(*self, one) == node_at(self.children@[k as int], one.drop_first()));
            }
            assert forall|q: Seq<int>| #[trigger] node_at(*child, q) is Some implies depth + 1 + q.len() <= u32::MAX by {
                let path = seq![k as int] + q;
                assert(path.drop_first() =~= q);
                assert(node_at(*self, path) == node_at(*child, q));
            }
            let sub = child.dump(depth + 1);
            push_str(&mut out, sub.as_str());
            k = k + 1;
            assert(out@ =~= head + children_dump(*self, k as int, depth as nat));
        }
        assert(dump_text(*self, depth as nat) == head + children_dump(*self, self.children@.len() as int, depth as nat));
        out
    }
}

/// `a` comes before `b` in the order of bus addresses: at the first port
/// where they differ `a` has the lower number, or `a` is a proper prefix of
/// `b`.
pub open spec fn address_lt(a: Seq<PortNumber>, b: Seq<PortNumber>) -> bool
    decreases a.len(),
{
    if b.len() == 0 {
        false
    } else if a.len() == 0 {
        true
    } else if a[0].0 != b[0].0 {
        a[0].0 < b[0].0
    } else {
        address_lt(a.drop_first(), b.drop_first())
    }
}

/// No address comes before itself.
pub proof fn lemma_address_lt_irreflexive(a: Seq<PortNumber>)
    ensures
        !address_lt(a, a),
    decreases a.len(),
{
    if a.len() > 0 {
        lemma_address_lt_irreflexive(a.drop_first());
    }
}

/// The order of addresses is transitive.
pub proof fn lemma_address_lt_transitive(a: Seq<PortNumber>, b: Seq<PortNumber>, c: Seq<PortNumber>)
    requires
        address_lt(a, b),
        address_lt(b, c),
    ensures
        address_lt(a, c),
    decreases a.len(),
{
    if a.len() > 0 && a[0].0 == b[0].0 && b[0].0 == c[0].0 {
        lemma_address_lt_transitive(a.drop_first(), b.drop_first(), c.drop_first());
    }
}

/// Whether `a` comes before `b` in the order of bus addresses.
fn address_less(a: &Vec<PortNumber>, b: &Vec<PortNumber>) -> (r: bool)
    ensures
        r == address_lt(a@, b@),
{
    let mut i: usize = 0;
    assert(a@.subrange(0, a@.len() as int) =~= a@);
    assert(b@.subrange(0, b@.len() as int) =~= b@);
    while i < a.len() && i < b.len() && a[i].0 == b[i].0
        invariant
            i <= a@.len(),
            i <= b@.len(),
            address_lt(a@, b@) == address_lt(
                a@.subrange(i as int, a@.len() as int),
                b@.subrange(i as int, b@.len() as int),
            ),
        decreases a@.len() - i,
    {
        let ghost sa = a@.subrange(i as int, a@.len() as int);
        let ghost sb = b@.subrange(i as int, b@.len() as int);
        assert(sa.drop_first() =~= a@.subrange(i + 1, a@.len() as int));
        assert(sb.drop_first() =~= b@.subrange(i + 1, b@.len() as int));
        i = i + 1;
    }
    if i == b.len() {
        false
    } else if i == a.len() {
        true
    } else {
        a[i].0 < b[i].0
    }
}

/// `nodes` ordered by bus address, as a stable sort orders them: the same
/// nodes, each as often, with no node before one whose address comes
/// before its own.
pub fn sort_by_address<'a, T>(nodes: Vec<&'a Node<T>>) -> (r: Vec<&'a Node<T>>)
    ensures
        r@.to_multiset() == nodes@.to_multiset(),
        forall|i: int, j: int|
            0 <= i < j < r@.len() ==> !address_lt(#[trigger] r@[j].bus_address@, #[trigger] r@[i].bus_address@),
{
    let mut out: Vec<&'a Node<T>> = Vec::new();
    let mut i: usize = 0;
    assert(nodes@.subrange(0, 0) =~= Seq::<&'a Node<T>>::empty());
    while i < nodes.len()
        invariant
            i <= nodes@.len(),
            out@.to_multiset() == nodes@.subrange(0, i as int).to_multiset(),
            forall|p: int, q: int|
                0 <= p < q < out@.len() ==> !address_lt(#[trigger] out@[q].bus_address@, #[trigger] out@[p].bus_address@),
        decreases nodes@.len() - i,
    {
        let x = nodes[i];
        let mut j: usize = 0;
        while j < out.len() && !address_less(&x.bus_address, &out[j].bus_address)
            invariant
                j <= out@.len(),
                forall|k: int| 0 <= k < j ==> !address_lt(x.bus_address@, #[trigger] out@[k].bus_address@),
            decreases out@.len() - j,
        {
            j = j + 1;
        }
        let ghost before = out@;
        out.insert(j, x);
        assert forall|p: int, q: int|
            0 <= p < q < out@.len() implies !address_lt(#[trigger] out@[q].bus_address@, #[trigger] out@[p].bus_address@) by {
            if p == j as int {
                if address_lt(out@[q].bus_address@, x.bus_address@) {
                    assert(out@[q] == before[q - 1]);
                    assert(address_lt(x.bus_address@, before[j as int].bus_address@));
                    lemma_address_lt_transitive(before[q - 1].bus_address@, x.bus_address@, before[j as int].bus_address@);
                    if q - 1 == j as int {
                        lemma_address_lt_irreflexive(before[j as int].bus_address@);
                    }
                }
            } else if q == j as int {
                assert(out@[p] == before[p]);
            } else if q < j as int {
                assert(out@[p] == before[p]);
                assert(out@[q] == before[q]);
            } else if p < j as int {
                assert(out@[p] == before[p]);
                assert(out@[q] == before[q - 1]);
            } else {
                assert(out@[p] == before[p - 1]);
                assert(out@[q] == before[q - 1]);
            }
        }
        assert(nodes@.subrange(0, i + 1) =~= nodes@.subrange(0, i as int).push(x));
        proof {
            vstd::seq_lib::to_multiset_insert(before, j as int, x);
            vstd::seq_lib::to_multiset_build(nodes@.subrange(0, i as int), x);
        }
        i = i + 1;
    }
    assert(nodes@.subrange(0, nodes@.len() as int) =~= nodes@);
    out
}

/// A short description of a node: its type and its ids, as in
/// `Hub (1d6b:0002)`.
pub open spec fn describe_node<T>(n: Node<T>) -> Seq<char> {
    node_type_text(n.node_type) + seq![' ', '('] + hex4(n.vendor_id) + seq![':'] + hex4(n.product_id) + seq![')']
}

impl<T> Node<T> {
    /// The node's type and ids, as in `Hub (1d6b:0002)`.
    pub fn describe(&self) -> (r: String)
        ensures
            r@ == describe_node(*self),
    {
        let mut out = String::new();
        match self.node_type {
            NodeType::Hub => push_chars(&mut out, &['H', 'u', 'b']),
            NodeType::Device => push_chars(&mut out, &['D', 'e', 'v', 'i', 'c', 'e']),
        }
        push_chars(&mut out, &[' ', '(']);
        push_hex4(&mut out, self.vendor_id);
        push_char(&mut out, ':');
        push_hex4(&mut out, self.product_id);
        push_char(&mut out, ')');
        proof {
            assert(['H', 'u', 'b']@ == seq!['H', 'u', 'b']);
            assert(['D', 'e', 'v', 'i', 'c', 'e']@ == seq!['D', 'e', 'v', 'i', 'c', 'e']);
            assert([' ', '(']@ == seq![' ', '(']);
        }
        assert(out@ =~= describe_node(*self));
        out
    }
}

/// Two nodes are equal when they have the same bus address.
impl<T> PartialEq for Node<T> {
    fn eq(&self, other: &Node<T>) -> (r: bool) {
        same_address(self, other)
    }
}

impl<T> vstd::std_specs::cmp::PartialEqSpecImpl for Node<T> {
    open spec fn obeys_eq_spec() -> bool {
        true
    }

    open spec fn eq_spec(&self, other: &Node<T>) -> bool {
        self.bus_address@ == other.bus_address@
    }
}

impl<T> Eq for Node<T> {
}

} // verus!
