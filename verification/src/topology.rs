//! Building the device tree from the flat list of devices that the USB
//! stack enumerates: each device names its parent, the port it hangs from,
//! and its bus; a device without a parent is the root hub of its bus.

use vstd::prelude::*;

use crate::node::{
    node_at, extends_address, is_prefix, lemma_wf_unfold, port_of, wf_children, wf_forest, wf_node, Node,
    NodeType, PortNumber,
};

verus! {

/// The class code of a hub in a USB device descriptor.
pub const HUB_CLASS: u8 = 9;

/// What a device says of itself: its descriptor, and the names that it
/// gives when it can be opened (each `None` where it could not be read).
pub struct DeviceInfo {
    pub class_code: u8,
    pub vendor_id: u16,
    pub product_id: u16,
    pub manufacturer: Option<String>,
    pub product: Option<String>,
    pub serial_number: Option<String>,
}

/// One device of the enumerated list.
pub struct DeviceRecord {
    /// The position in the list of the device that this one is attached
    /// to; `None` for the root hub of a bus. A position that holds no
    /// device attaches this one to nothing.
    pub parent: Option<usize>,
    /// The port of the parent that this device is attached to.
    pub port_number: u8,
    /// The bus that this device is on.
    pub bus_number: u8,
    /// What the device says of itself; `None` when its descriptor could
    /// not be read.
    pub info: Option<DeviceInfo>,
}

/// The last device before position `k` that hangs from port `p` of the
/// device at `i`.
pub open spec fn last_child_below(recs: Seq<DeviceRecord>, i: int, p: u8, k: int) -> Option<int>
    decreases k,
{
    if k <= 0 || k > recs.len() {
        None
    } else if recs[k - 1].parent == Some(i as usize) && recs[k - 1].port_number == p {
        Some(k - 1)
    } else {
        last_child_below(recs, i, p, k - 1)
    }
}

/// The device at port `p` of the device at `i`: the last one listed there.
pub open spec fn child_at(recs: Seq<DeviceRecord>, i: int, p: u8) -> Option<int> {
    last_child_below(recs, i, p, recs.len() as int)
}

/// The last root hub before position `k` on bus `b`.
pub open spec fn last_root_below(recs: Seq<DeviceRecord>, b: u8, k: int) -> Option<int>
    decreases k,
{
    if k <= 0 || k > recs.len() {
        None
    } else if recs[k - 1].parent is None && recs[k - 1].bus_number == b {
        Some(k - 1)
    } else {
        last_root_below(recs, b, k - 1)
    }
}

/// The root hub of bus `b`: the last one listed on it.
pub open spec fn root_at(recs: Seq<DeviceRecord>, b: u8) -> Option<int> {
    last_root_below(recs, b, recs.len() as int)
}

/// The devices attached to the device at `i`, from port `p` on, in port
/// order, each with its port.
pub open spec fn child_list(recs: Seq<DeviceRecord>, i: int, p: int) -> Seq<(u8, int)>
    decreases 256 - p,
{
    if !(0 <= p < 256) {
        seq![]
    } else {
        match child_at(recs, i, p as u8) {
            Some(j) => seq![(p as u8, j)] + child_list(recs, i, p + 1),
            None => child_list(recs, i, p + 1),
        }
    }
}

/// Whether a device of class `class_code` is a hub or another device.
pub open spec fn node_kind(class_code: u8) -> NodeType {
    if class_code == HUB_CLASS {
        NodeType::Hub
    } else {
        NodeType::Device
    }
}

/// The tree under the device at `i` can be built within `fuel` levels:
/// every device in it could be read.
pub open spec fn subtree_ok(recs: Seq<DeviceRecord>, i: int, fuel: nat) -> bool
    decreases fuel,
{
    &&& fuel > 0
    &&& 0 <= i < recs.len()
    &&& recs[i].info is Some
    &&& forall|k: int|
        0 <= k < child_list(recs, i, 0).len() ==> subtree_ok(
            recs,
            #[trigger] child_list(recs, i, 0)[k].1,
            (fuel - 1) as nat,
        )
}

/// `n` is the node for the device at `i` with bus address `address`: its
/// fields are what the device says of itself, and its children are the
/// nodes of the devices attached to it, in port order.
pub open spec fn built(recs: Seq<DeviceRecord>, i: int, address: Seq<PortNumber>, fuel: nat, n: Node<usize>) -> bool
    decreases fuel,
{
    &&& fuel > 0
    &&& 0 <= i < recs.len()
    &&& recs[i].info matches Some(info)
    &&& n.node_type == node_kind(info.class_code)
    &&& n.bus_address@ == address
    &&& n.vendor_id == info.vendor_id
    &&& n.product_id == info.product_id
    &&& n.manufacturer == info.manufacturer
    &&& n.product == info.product
    &&& n.serial_number == info.serial_number
    &&& n.userdata == Some(i as usize)
    &&& n.children@.len() == child_list(recs, i, 0).len()
    &&& forall|k: int|
        0 <= k < n.children@.len() ==> built(
            recs,
            child_list(recs, i, 0)[k].1,
            address.push(PortNumber(child_list(recs, i, 0)[k].0)),
            (fuel - 1) as nat,
            #[trigger] n.children@[k],
        )
}

/// The root hubs, by bus from `b` on, whose trees can be built, each with
/// its bus.
pub open spec fn built_roots(recs: Seq<DeviceRecord>, b: int) -> Seq<(u8, int)>
    decreases 256 - b,
{
    if !(0 <= b < 256) {
        seq![]
    } else {
        match root_at(recs, b as u8) {
            Some(j) => if subtree_ok(recs, j, recs.len()) {
                seq![(b as u8, j)] + built_roots(recs, b + 1)
            } else {
                built_roots(recs, b + 1)
            },
            None => built_roots(recs, b + 1),
        }
    }
}

/// The ports of the devices attached to the device at `i`, from port `p`
/// on, are at least `p` and strictly increasing.
proof fn lemma_child_ports(recs: Seq<DeviceRecord>, i: int, p: int)
    ensures
        forall|k: int| 0 <= k < child_list(recs, i, p).len() ==> p <= #[trigger] child_list(recs, i, p)[k].0,
        forall|k: int, l: int|
            0 <= k < l < child_list(recs, i, p).len() ==> #[trigger] child_list(recs, i, p)[k].0
                < #[trigger] child_list(recs, i, p)[l].0,
    decreases 256 - p,
{
    if 0 <= p < 256 {
        lemma_child_ports(recs, i, p + 1);
        let rest = child_list(recs, i, p + 1);
        assert((p as u8) as int == p);
        if let Some(j) = child_at(recs, i, p as u8) {
            let all = seq![(p as u8, j)] + rest;
            assert(child_list(recs, i, p) == all);
            assert forall|k: int| 0 <= k < all.len() implies p <= #[trigger] all[k].0 by {
                if k > 0 {
                    assert(all[k] == rest[k - 1]);
                }
            }
            assert forall|k: int, l: int| 0 <= k < l < all.len() implies #[trigger] all[k].0 < #[trigger] all[l].0 by {
                assert(all[l] == rest[l - 1]);
                if k > 0 {
                    assert(all[k] == rest[k - 1]);
                }
            }
        }
    }
}

/// The buses of the root hubs from bus `b` on are at least `b` and strictly
/// increasing.
proof fn lemma_root_buses(recs: Seq<DeviceRecord>, b: int)
    ensures
        forall|k: int| 0 <= k < built_roots(recs, b).len() ==> b <= #[trigger] built_roots(recs, b)[k].0,
        forall|k: int, l: int|
            0 <= k < l < built_roots(recs, b).len() ==> #[trigger] built_roots(recs, b)[k].0
                < #[trigger] built_roots(recs, b)[l].0,
    decreases 256 - b,
{
    if 0 <= b < 256 {
        lemma_root_buses(recs, b + 1);
        let rest = built_roots(recs, b + 1);
        assert((b as u8) as int == b);
        if let Some(j) = root_at(recs, b as u8) {
            if subtree_ok(recs, j, recs.len()) {
                let all = seq![(b as u8, j)] + rest;
                assert(built_roots(recs, b) == all);
                assert forall|k: int| 0 <= k < all.len() implies b <= #[trigger] all[k].0 by {
                    if k > 0 {
                        assert(all[k] == rest[k - 1]);
                    }
                }
                assert forall|k: int, l: int| 0 <= k < l < all.len() implies #[trigger] all[k].0 < #[trigger] all[l].0 by {
                    assert(all[l] == rest[l - 1]);
                    if k > 0 {
                        assert(all[k] == rest[k - 1]);
                    }
                }
            }
        }
    }
}

/// A built node is a well-formed tree: each child extends the bus address
/// of its parent by its own port, and no two children share a port.
pub proof fn lemma_built_wf(recs: Seq<DeviceRecord>, i: int, address: Seq<PortNumber>, fuel: nat, n: Node<usize>)
    requires
        built(recs, i, address, fuel, n),
    ensures
        wf_node(n),
    decreases fuel,
{
    let kids = child_list(recs, i, 0);
    lemma_child_ports(recs, i, 0);
    assert forall|k: int| 0 <= k < n.children@.len() implies #[trigger] wf_node(n.children@[k]) by {
        lemma_built_wf(recs, kids[k].1, address.push(PortNumber(kids[k].0)), (fuel - 1) as nat, n.children@[k]);
    }
    assert forall|k: int| 0 <= k < n.children@.len() implies extends_address(n, #[trigger] n.children@[k])
        && port_of(n.children@[k]) == PortNumber(kids[k].0) by {
        assert(built(recs, kids[k].1, address.push(PortNumber(kids[k].0)), (fuel - 1) as nat, n.children@[k]));
        assert(address.push(PortNumber(kids[k].0)).drop_last() =~= address);
    }
    assert forall|k: int, l: int| 0 <= k < l < n.children@.len() implies port_of(
        #[trigger] n.children@[k],
    ).0 < port_of(#[trigger] n.children@[l]).0 by {
        assert(kids[k].0 < kids[l].0);
    }
    assert(wf_children(n));
    lemma_wf_unfold(n);
}

/// `path` is a chain of devices from a root hub down, each attached to the
/// one before it.
pub open spec fn is_descent(recs: Seq<DeviceRecord>, path: Seq<int>) -> bool {
    &&& path.len() > 0
    &&& forall|t: int| 0 <= t < path.len() ==> 0 <= #[trigger] path[t] < recs.len()
    &&& recs[path[0]].parent is None
    &&& forall|t: int| 0 < t < path.len() ==> recs[#[trigger] path[t]].parent == Some(path[t - 1] as usize)
}

/// A device found at a port of the device at `i` is attached to it.
proof fn lemma_last_child(recs: Seq<DeviceRecord>, i: int, p: u8, k: int)
    ensures
        last_child_below(recs, i, p, k) matches Some(j) ==> 0 <= j < recs.len() && recs[j].parent == Some(
            i as usize,
        ),
    decreases k,
{
    if 0 < k <= recs.len() {
        lemma_last_child(recs, i, p, k - 1);
    }
}

/// The devices listed as attached to the device at `i` are attached to it.
proof fn lemma_child_list_attached(recs: Seq<DeviceRecord>, i: int, p: int)
    ensures
        forall|k: int|
            0 <= k < child_list(recs, i, p).len() ==> 0 <= #[trigger] child_list(recs, i, p)[k].1 < recs.len()
                && recs[child_list(recs, i, p)[k].1].parent == Some(i as usize),
    decreases 256 - p,
{
    if 0 <= p < 256 {
        lemma_child_list_attached(recs, i, p + 1);
        lemma_last_child(recs, i, p as u8, recs.len() as int);
        let rest = child_list(recs, i, p + 1);
        if let Some(j) = child_at(recs, i, p as u8) {
            let all = seq![(p as u8, j)] + rest;
            assert(child_list(recs, i, p) == all);
            assert forall|k: int| 0 <= k < all.len() implies 0 <= #[trigger] all[k].1 < recs.len()
                && recs[all[k].1].parent == Some(i as usize) by {
                if k > 0 {
                    assert(all[k] == rest[k - 1]);
                }
            }
        }
    }
}

proof fn lemma_descent_distinct_at(recs: Seq<DeviceRecord>, path: Seq<int>, s: int, t: int)
    requires
        recs.len() <= usize::MAX,
        is_descent(recs, path),
        0 <= s < t < path.len(),
    ensures
        path[s] != path[t],
    decreases s,
{
    if path[s] == path[t] && s > 0 {
        assert(recs[path[s]].parent == Some(path[s - 1] as usize));
        assert(recs[path[t]].parent == Some(path[t - 1] as usize));
        assert(0 <= path[s - 1] < recs.len() && 0 <= path[t - 1] < recs.len());
        lemma_descent_distinct_at(recs, path, s - 1, t - 1);
    }
}

/// A chain of attached devices from a root hub never repeats a device, so
/// it is no longer than the list.
proof fn lemma_descent_short(recs: Seq<DeviceRecord>, path: Seq<int>)
    requires
        recs.len() <= usize::MAX,
        is_descent(recs, path),
    ensures
        path.len() <= recs.len(),
{
    assert forall|a: int, b: int| 0 <= a < path.len() && 0 <= b < path.len() && a != b implies path[a] != path[b] by {
        if a < b {
            lemma_descent_distinct_at(recs, path, a, b);
        } else {
            lemma_descent_distinct_at(recs, path, b, a);
        }
    }
    assert(path.no_duplicates());
    path.unique_seq_to_set();
    vstd::set_lib::lemma_int_range(0, recs.len() as int);
    assert(path.to_set().subset_of(vstd::set_lib::set_int_range(0, recs.len() as int)));
    vstd::set_lib::lemma_len_subset(path.to_set(), vstd::set_lib::set_int_range(0, recs.len() as int));
}

/// Below the end of a chain from a root hub, any depth limit that leaves a
/// level for each device not yet on the chain gives the same result.
proof fn lemma_fuel_enough(recs: Seq<DeviceRecord>, path: Seq<int>, f1: nat, f2: nat)
    requires
        recs.len() <= usize::MAX,
        is_descent(recs, path),
        f1 + path.len() >= recs.len() + 1,
        f2 + path.len() >= recs.len() + 1,
    ensures
        subtree_ok(recs, path.last(), f1) == subtree_ok(recs, path.last(), f2),
        forall|a: Seq<PortNumber>, n: Node<usize>|
            #![trigger built(recs, path.last(), a, f1, n)]
            #![trigger built(recs, path.last(), a, f2, n)]
            built(recs, path.last(), a, f1, n) == built(recs, path.last(), a, f2, n),
    decreases recs.len() + 1 - path.len(),
{
    lemma_descent_short(recs, path);
    let i = path.last();
    let kids = child_list(recs, i, 0);
    lemma_child_list_attached(recs, i, 0);
    assert forall|k: int| 0 <= k < kids.len() implies is_descent(recs, #[trigger] path.push(kids[k].1)) by {
        let longer = path.push(kids[k].1);
        assert forall|t: int| 0 <= t < longer.len() implies 0 <= #[trigger] longer[t] < recs.len() by {
            if t < path.len() {
                assert(longer[t] == path[t]);
            }
        }
        assert forall|t: int| 0 < t < longer.len() implies recs[#[trigger] longer[t]].parent == Some(longer[t - 1] as usize) by {
            if t < path.len() {
                assert(longer[t] == path[t]);
                assert(longer[t - 1] == path[t - 1]);
            }
        }
    }
    assert forall|k: int| 0 <= k < kids.len() implies subtree_ok(recs, #[trigger] kids[k].1, (f1 - 1) as nat)
        == subtree_ok(recs, kids[k].1, (f2 - 1) as nat) && (forall|a: Seq<PortNumber>, n: Node<usize>|
            #![trigger built(recs, kids[k].1, a, (f1 - 1) as nat, n)]
            #![trigger built(recs, kids[k].1, a, (f2 - 1) as nat, n)]
            built(recs, kids[k].1, a, (f1 - 1) as nat, n) == built(recs, kids[k].1, a, (f2 - 1) as nat, n)) by {
        let longer = path.push(kids[k].1);
        assert(is_descent(recs, longer));
        lemma_descent_short(recs, longer);
        lemma_fuel_enough(recs, longer, (f1 - 1) as nat, (f2 - 1) as nat);
        assert(longer.last() == kids[k].1);
    }
    assert forall|a: Seq<PortNumber>, n: Node<usize>|
        #![trigger built(recs, path.last(), a, f1, n)]
        #![trigger built(recs, path.last(), a, f2, n)]
        built(recs, i, a, f1, n) == built(recs, i, a, f2, n) by {
        if n.children@.len() == kids.len() {
            assert forall|k: int| 0 <= k < n.children@.len() implies built(
                recs,
                kids[k].1,
                a.push(PortNumber(kids[k].0)),
                (f1 - 1) as nat,
                #[trigger] n.children@[k],
            ) == built(recs, kids[k].1, a.push(PortNumber(kids[k].0)), (f2 - 1) as nat, n.children@[k]) by {
                assert(kids[k].1 == kids[k].1);
            }
        }
    }
}

/// The depth limit under which a tree is built never binds: a chain of
/// attached devices from a root hub never repeats a device, so it is no
/// longer than the list, and building the tree of a root hub with any more
/// levels to spare gives the same result. (The list is taken to fit in
/// memory.)
pub proof fn law_depth_limit_never_binds(recs: Seq<DeviceRecord>, r: int, m: nat)
    requires
        recs.len() <= usize::MAX,
        0 <= r < recs.len(),
        recs[r].parent is None,
        m >= recs.len(),
    ensures
        subtree_ok(recs, r, recs.len()) == subtree_ok(recs, r, m),
        forall|a: Seq<PortNumber>, n: Node<usize>|
            #[trigger] built(recs, r, a, recs.len(), n) == built(recs, r, a, m, n),
{
    let path = seq![r];
    assert(is_descent(recs, path));
    lemma_fuel_enough(recs, path, recs.len(), m);
    assert(path.last() == r);
}

/// The devices listed as attached to the device at `i`, from port `p` on,
/// are exactly the device at each port from `p` on that has one.
pub proof fn law_child_list_exact(recs: Seq<DeviceRecord>, i: int, p: int, q: u8, c: int)
    requires
        0 <= p,
    ensures
        (p <= q && child_at(recs, i, q) == Some(c)) == exists|k: int|
            0 <= k < child_list(recs, i, p).len() && #[trigger] child_list(recs, i, p)[k] == (q, c),
    decreases 256 - p,
{
    lemma_child_ports(recs, i, p);
    if p < 256 {
        law_child_list_exact(recs, i, p + 1, q, c);
        let rest = child_list(recs, i, p + 1);
        assert((p as u8) as int == p);
        match child_at(recs, i, p as u8) {
            Some(j) => {
                let all = seq![(p as u8, j)] + rest;
                assert(child_list(recs, i, p) == all);
                if p <= q && child_at(recs, i, q) == Some(c) {
                    if q as int == p {
                        assert(all[0] == (q, c));
                    } else {
                        let k = choose|k: int| 0 <= k < rest.len() && #[trigger] rest[k] == (q, c);
                        assert(all[k + 1] == (q, c));
                    }
                }
                if exists|k: int| 0 <= k < all.len() && #[trigger] all[k] == (q, c) {
                    let k = choose|k: int| 0 <= k < all.len() && #[trigger] all[k] == (q, c);
                    if k > 0 {
                        assert(rest[k - 1] == (q, c));
                    }
                }
            },
            None => {
                assert(child_list(recs, i, p) == rest);
                if q as int == p && child_at(recs, i, q) == Some(c) {
                    assert(false);
                }
            },
        }
    } else {
        assert(child_list(recs, i, p).len() == 0);
    }
}

/// Every node of a tree built from the device list is built from one device
/// of it: its children are exactly the devices attached to that device,
/// in port order (see [`law_child_list_exact`]), each built at the bus
/// address of the node followed by its port.
pub proof fn law_built_nodes(recs: Seq<DeviceRecord>, i: int, address: Seq<PortNumber>, fuel: nat, n: Node<usize>, path: Seq<int>)
    requires
        built(recs, i, address, fuel, n),
        node_at(n, path) is Some,
    ensures
        exists|j: int, g: nat| #[trigger] built(recs, j, node_at(n, path).unwrap().bus_address@, g, node_at(n, path).unwrap()),
    decreases path.len(),
{
    if path.len() == 0 {
        assert(node_at(n, path) == Some(n));
        assert(built(recs, i, n.bus_address@, fuel, n));
    } else {
        let k = path[0];
        let kids = child_list(recs, i, 0);
        assert(0 <= k < n.children@.len());
        assert(node_at(n, path) == node_at(n.children@[k], path.drop_first()));
        law_built_nodes(recs, kids[k].1, address.push(PortNumber(kids[k].0)), (fuel - 1) as nat, n.children@[k], path.drop_first());
    }
}

/// A node built from the device at `i` carries what that device says of
/// itself: its serial number, manufacturer and product strings, its vendor
/// and product ids, its kind, and the position `i` of the device in the list.
pub proof fn law_built_fields(recs: Seq<DeviceRecord>, i: int, address: Seq<PortNumber>, fuel: nat, n: Node<usize>)
    requires
        built(recs, i, address, fuel, n),
    ensures
        0 <= i < recs.len(),
        n.userdata == Some(i as usize),
        recs[i].info matches Some(info) && n.serial_number == info.serial_number && n.manufacturer
            == info.manufacturer && n.product == info.product && n.vendor_id == info.vendor_id && n.product_id
            == info.product_id && n.node_type == node_kind(info.class_code),
{
}

/// The device at port `p` of the device at `i`.
fn find_child(recs: &Vec<DeviceRecord>, i: usize, p: u8) -> (r: Option<usize>)
    ensures
        match r {
            Some(j) => child_at(recs@, i as int, p) == Some(j as int) && j < recs@.len(),
            None => child_at(recs@, i as int, p) is None,
        },
{
    let mut k = recs.len();
    while k > 0
        invariant
            k <= recs@.len(),
            child_at(recs@, i as int, p) == last_child_below(recs@, i as int, p, k as int),
        decreases k,
    {
        if recs[k - 1].parent == Some(i) && recs[k - 1].port_number == p {
            return Some(k - 1);
        }
        k = k - 1;
    }
    None
}

/// The root hub of bus `b`.
fn find_root(recs: &Vec<DeviceRecord>, b: u8) -> (r: Option<usize>)
    ensures
        match r {
            Some(j) => root_at(recs@, b) == Some(j as int) && j < recs@.len(),
            None => root_at(recs@, b) is None,
        },
{
    let mut k = recs.len();
    while k > 0
        invariant
            k <= recs@.len(),
            root_at(recs@, b) == last_root_below(recs@, b, k as int),
        decreases k,
    {
        if recs[k - 1].parent.is_none() && recs[k - 1].bus_number == b {
            return Some(k - 1);
        }
        k = k - 1;
    }
    None
}

fn copy_text(s: &Option<String>) -> (r: Option<String>)
    ensures
        r == *s,
{
    match s {
        Some(t) => Some(t.clone()),
        None => None,
    }
}

/// `address` followed by `p`.
fn extend_address(address: &Vec<PortNumber>, p: PortNumber) -> (r: Vec<PortNumber>)
    ensures
        r@ == address@.push(p),
{
    let mut r: Vec<PortNumber> = Vec::new();
    let mut i: usize = 0;
    while i < address.len()
        invariant
            i <= address@.len(),
            r@ == address@.subrange(0, i as int),
        decreases address@.len() - i,
    {
        r.push(address[i]);
        i = i + 1;
    }
    r.push(p);
    assert(address@.subrange(0, address@.len() as int) =~= address@);
    r
}

impl Node<usize> {
    /// The node for the device at `index`, from what it says of itself.
    fn new(info: &DeviceInfo, index: usize, bus_address: Vec<PortNumber>, children: Vec<Node<usize>>) -> (r: Node<usize>)
        ensures
            r.node_type == node_kind(info.class_code),
            r.bus_address@ == bus_address@,
            r.vendor_id == info.vendor_id,
            r.product_id == info.product_id,
            r.manufacturer == info.manufacturer,
            r.product == info.product,
            r.serial_number == info.serial_number,
            r.userdata == Some(index),
            r.children@ == children@,
    {
        let node_type = if info.class_code == HUB_CLASS {
            NodeType::Hub
        } else {
            NodeType::Device
        };
        Node {
            children,
            node_type,
            bus_address,
            vendor_id: info.vendor_id,
            product_id: info.product_id,
            serial_number: copy_text(&info.serial_number),
            manufacturer: copy_text(&info.manufacturer),
            product: copy_text(&info.product),
            userdata: Some(index),
        }
    }

    /// The tree under the device at `index`, whose bus address is
    /// `bus_address`, going at most `fuel` levels deep; `None` when some
    /// device in it could not be read.
    fn from_raw(recs: &Vec<DeviceRecord>, index: usize, bus_address: Vec<PortNumber>, fuel: usize) -> (r: Option<Node<usize>>)
        ensures
            match r {
                Some(n) => subtree_ok(recs@, index as int, fuel as nat) && built(recs@, index as int, bus_address@, fuel as nat, n),
                None => !subtree_ok(recs@, index as int, fuel as nat),
            },
        decreases fuel,
    {
        if fuel == 0 || index >= recs.len() {
            return None;
        }
        let info = match &recs[index].info {
            Some(info) => info,
            None => return None,
        };
        let ghost kids = child_list(recs@, index as int, 0);
        let mut children: Vec<Node<usize>> = Vec::new();
        let mut p: u16 = 0;
        while p < 256
            invariant
                0 < fuel,
                index < recs@.len(),
                p <= 256,
                kids == child_list(recs@, index as int, 0),
                children@.len() <= kids.len(),
                kids == kids.subrange(0, children@.len() as int) + child_list(recs@, index as int, p as int),
                forall|k: int|
                    0 <= k < children@.len() ==> subtree_ok(recs@, #[trigger] kids[k].1, (fuel - 1) as nat)
                        && built(
                        recs@,
                        kids[k].1,
                        bus_address@.push(PortNumber(kids[k].0)),
                        (fuel - 1) as nat,
                        children@[k],
                    ),
            decreases 256 - p,
        {
            let ghost before = children@;
            let port = p as u8;
            assert(child_list(recs@, index as int, p as int) == match child_at(recs@, index as int, port) {
                Some(j) => seq![(port, j)] + child_list(recs@, index as int, p + 1),
                None => child_list(recs@, index as int, p + 1),
            });
            match find_child(recs, index, port) {
                Some(j) => {
                    let address = extend_address(&bus_address, PortNumber(port));
                    assert(kids[before.len() as int] == (port, j as int));
                    match Node::from_raw(recs, j, address, fuel - 1) {
                        Some(child) => {
                            children.push(child);
                            assert(kids =~= kids.subrange(0, children@.len() as int) + child_list(recs@, index as int, p + 1));
                        },
                        None => {
                            assert(!subtree_ok(recs@, child_list(recs@, index as int, 0)[before.len() as int].1, (fuel - 1) as nat));
                            return None;
                        },
                    }
                },
                None => {},
            }
            p = p + 1;
        }
        assert(child_list(recs@, index as int, 256) == Seq::<(u8, int)>::empty());
        assert(kids.subrange(0, children@.len() as int) =~= kids);
        Some(Node::new(info, index, bus_address, children))
    }

    /// The device tree of the devices in `records`: the trees under the root
    /// hubs, in bus order. A root hub whose tree holds a device that could
    /// not be read is left out with its whole tree; of two root hubs on one
    /// bus, and of two devices at one port, the later one listed counts.
    pub fn from_devices(records: &Vec<DeviceRecord>) -> (r: Vec<Node<usize>>)
        ensures
            wf_forest(r@),
            r@.len() == built_roots(records@, 0).len(),
            forall|k: int|
                0 <= k < r@.len() ==> built(
                    records@,
                    #[trigger] built_roots(records@, 0)[k].1,
                    seq![PortNumber(built_roots(records@, 0)[k].0)],
                    records@.len(),
                    r@[k],
                ),
            forall|k: int, path: Seq<int>|
                0 <= k < r@.len() && #[trigger] node_at(r@[k], path) is Some ==> exists|j: int, g: nat|
                    #[trigger] built(records@, j, node_at(r@[k], path).unwrap().bus_address@, g, node_at(r@[k], path).unwrap()),
            forall|k: int, path: Seq<int>|
                0 <= k < r@.len() && #[trigger] node_at(r@[k], path) is Some ==> ({
                    let m = node_at(r@[k], path).unwrap();
                    exists|j: int|
                        0 <= j < records@.len() && m.userdata == Some(j as usize) && (#[trigger] records@[j].info matches Some(
                            info,
                        ) && m.serial_number == info.serial_number && m.manufacturer == info.manufacturer && m.product
                            == info.product && m.vendor_id == info.vendor_id && m.product_id == info.product_id
                            && m.node_type == node_kind(info.class_code))
                }),
    {
        let ghost roots = built_roots(records@, 0);
        let n = records.len();
        let mut result: Vec<Node<usize>> = Vec::new();
        let mut b: u16 = 0;
        while b < 256
            invariant
                n == records@.len(),
                b <= 256,
                roots == built_roots(records@, 0),
                result@.len() <= roots.len(),
                roots == roots.subrange(0, result@.len() as int) + built_roots(records@, b as int),
                forall|k: int|
                    0 <= k < result@.len() ==> built(
                        records@,
                        #[trigger] roots[k].1,
                        seq![PortNumber(roots[k].0)],
                        records@.len(),
                        result@[k],
                    ),
            decreases 256 - b,
        {
            let bus = b as u8;
            assert(built_roots(records@, b as int) == match root_at(records@, bus) {
                Some(j) => if subtree_ok(records@, j, records@.len()) {
                    seq![(bus, j)] + built_roots(records@, b + 1)
                } else {
                    built_roots(records@, b + 1)
                },
                None => built_roots(records@, b + 1),
            });
            match find_root(records, bus) {
                Some(j) => {
                    let mut address: Vec<PortNumber> = Vec::new();
                    address.push(PortNumber(bus));
                    assert(address@ == seq![PortNumber(bus)]);
                    match Node::from_raw(records, j, address, n) {
                        Some(node) => {
                            assert(roots[result@.len() as int] == (bus, j as int));
                            result.push(node);
                            assert(roots =~= roots.subrange(0, result@.len() as int) + built_roots(records@, b + 1));
                        },
                        None => {},
                    }
                },
                None => {},
            }
            b = b + 1;
        }
        assert(built_roots(records@, 256) == Seq::<(u8, int)>::empty());
        assert(roots.subrange(0, result@.len() as int) =~= roots);
        proof {
            lemma_root_buses(records@, 0);
            assert forall|k: int| 0 <= k < result@.len() implies #[trigger] wf_node(result@[k]) by {
                lemma_built_wf(records@, roots[k].1, seq![PortNumber(roots[k].0)], records@.len(), result@[k]);
            }
            assert forall|k: int, l: int|
                0 <= k < result@.len() && 0 <= l < result@.len() && k != l implies !is_prefix(
                    #[trigger] result@[k].bus_address@,
                    #[trigger] result@[l].bus_address@,
                ) by {
                assert(built(records@, roots[k].1, seq![PortNumber(roots[k].0)], records@.len(), result@[k]));
                assert(built(records@, roots[l].1, seq![PortNumber(roots[l].0)], records@.len(), result@[l]));
                assert(result@[k].bus_address@ == seq![PortNumber(roots[k].0)]);
                assert(result@[l].bus_address@ == seq![PortNumber(roots[l].0)]);
                assert(roots[k].0 != roots[l].0);
                assert(result@[l].bus_address@.subrange(0, 1)[0] == PortNumber(roots[l].0));
            }
            assert forall|k: int, path: Seq<int>|
                0 <= k < result@.len() && #[trigger] node_at(result@[k], path) is Some implies exists|j: int, g: nat|
                    #[trigger] built(records@, j, node_at(result@[k], path).unwrap().bus_address@, g, node_at(result@[k], path).unwrap()) by {
                law_built_nodes(records@, roots[k].1, seq![PortNumber(roots[k].0)], records@.len(), result@[k], path);
            }
            assert forall|k: int, path: Seq<int>|
                0 <= k < result@.len() && #[trigger] node_at(result@[k], path) is Some implies ({
                    let m = node_at(result@[k], path).unwrap();
                    exists|j: int|
                        0 <= j < records@.len() && m.userdata == Some(j as usize) && (#[trigger] records@[j].info matches Some(
                            info,
                        ) && m.serial_number == info.serial_number && m.manufacturer == info.manufacturer && m.product
                            == info.product && m.vendor_id == info.vendor_id && m.product_id == info.product_id
                            && m.node_type == node_kind(info.class_code))
                }) by {
                let m = node_at(result@[k], path).unwrap();
                law_built_nodes(records@, roots[k].1, seq![PortNumber(roots[k].0)], records@.len(), result@[k], path);
                let (j, g) = choose|j: int, g: nat| #[trigger] built(records@, j, m.bus_address@, g, m);
                law_built_fields(records@, j, m.bus_address@, g, m);
                assert(records@[j].info is Some);
            }
        }
        result
    }
}

} // verus!
