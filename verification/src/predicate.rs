//! Predicates: the filters that a single element of a selector applies to a node.

use vstd::prelude::*;

use crate::node::{node_type_text, port_of, Node, NodeType, PortNumber};
use crate::text::{decimal, push_char, push_chars, push_decimal, push_str};

verus! {

/// A filter on the attributes of one node. Each field that is `Some` must
/// match the node; fields that are `None` match any node.
#[derive(Debug, Clone, Eq)]
pub struct Predicate {
    pub node_type: Option<NodeType>,
    pub port_number: Option<PortNumber>,
    pub vendor_id: Option<u16>,
    pub product_id: Option<u16>,
    pub serial_number: Option<String>,
    pub manufacturer: Option<String>,
    pub product: Option<String>,
}

/// The mathematical value of a [`Predicate`]: its strings taken as sequences
/// of characters.
pub struct SpecPredicate {
    pub node_type: Option<NodeType>,
    pub port_number: Option<PortNumber>,
    pub vendor_id: Option<u16>,
    pub product_id: Option<u16>,
    pub serial_number: Option<Seq<char>>,
    pub manufacturer: Option<Seq<char>>,
    pub product: Option<Seq<char>>,
}

/// An optional string taken as an optional sequence of characters.
pub open spec fn opt_text(o: Option<String>) -> Option<Seq<char>> {
    match o {
        Some(s) => Some(s@),
        None => None,
    }
}

impl View for Predicate {
    type V = SpecPredicate;

    open spec fn view(&self) -> SpecPredicate {
        SpecPredicate {
            node_type: self.node_type,
            port_number: self.port_number,
            vendor_id: self.vendor_id,
            product_id: self.product_id,
            serial_number: opt_text(self.serial_number),
            manufacturer: opt_text(self.manufacturer),
            product: opt_text(self.product),
        }
    }
}

/// The predicate that constrains nothing.
pub open spec fn empty_predicate() -> SpecPredicate {
    SpecPredicate {
        node_type: None,
        port_number: None,
        vendor_id: None,
        product_id: None,
        serial_number: None,
        manufacturer: None,
        product: None,
    }
}

/// A required string is met by a node's optional string when the node has it.
pub open spec fn text_matches(required: Option<Seq<char>>, actual: Option<String>) -> bool {
    match required {
        Some(r) => opt_text(actual) == Some(r),
        None => true,
    }
}

/// `p` holds of `n`: every constraint that `p` sets is met by `n`. The port
/// of a node is the last entry of its bus address.
pub open spec fn pred_holds<T>(p: SpecPredicate, n: Node<T>) -> bool {
    &&& (p.node_type matches Some(t) ==> t == n.node_type)
    &&& (p.port_number matches Some(q) ==> q == port_of(n))
    &&& (p.vendor_id matches Some(v) ==> v == n.vendor_id)
    &&& (p.product_id matches Some(v) ==> v == n.product_id)
    &&& text_matches(p.serial_number, n.serial_number)
    &&& text_matches(p.manufacturer, n.manufacturer)
    &&& text_matches(p.product, n.product)
}

/// The predicate that sets no constraint holds of every node.
pub proof fn law_empty_predicate_holds<T>(n: Node<T>)
    ensures
        pred_holds(empty_predicate(), n),
{
}

/// A predicate that sets one constraint holds of a node exactly when the
/// node has that one attribute, whatever its others: a required serial
/// number is compared with the node's serial number, a required
/// manufacturer with its manufacturer, a required product with its product.
pub proof fn law_single_constraints<T>(n: Node<T>, t: NodeType, q: PortNumber, v: u16, s: Seq<char>)
    ensures
        pred_holds(SpecPredicate { node_type: Some(t), ..empty_predicate() }, n) == (n.node_type == t),
        pred_holds(SpecPredicate { port_number: Some(q), ..empty_predicate() }, n) == (port_of(n) == q),
        pred_holds(SpecPredicate { vendor_id: Some(v), ..empty_predicate() }, n) == (n.vendor_id == v),
        pred_holds(SpecPredicate { product_id: Some(v), ..empty_predicate() }, n) == (n.product_id == v),
        pred_holds(SpecPredicate { serial_number: Some(s), ..empty_predicate() }, n) == (
        n.serial_number matches Some(z) && z@ == s),
        pred_holds(SpecPredicate { manufacturer: Some(s), ..empty_predicate() }, n) == (
        n.manufacturer matches Some(z) && z@ == s),
        pred_holds(SpecPredicate { product: Some(s), ..empty_predicate() }, n) == (
        n.product matches Some(z) && z@ == s),
{
}

fn text_filter_passes(required: &Option<String>, actual: &Option<String>) -> (r: bool)
    ensures
        r == text_matches(opt_text(*required), *actual),
{
    if let Some(want) = required {
        if let Some(have) = actual {
            *want == *have
        } else {
            false
        }
    } else {
        true
    }
}

impl Predicate {
    /// A predicate that matches every node.
    pub fn new() -> (r: Self)
        ensures
            r@ == empty_predicate(),
    {
        Predicate {
            node_type: None,
            port_number: None,
            vendor_id: None,
            product_id: None,
            serial_number: None,
            manufacturer: None,
            product: None,
        }
    }

    pub fn with_node_type(self, node_type: NodeType) -> (r: Self)
        ensures
            r@ == (SpecPredicate { node_type: Some(node_type), ..self@ }),
    {
        Predicate { node_type: Some(node_type), ..self }
    }

    pub fn with_port_number(self, port_number: u8) -> (r: Self)
        ensures
            r@ == (SpecPredicate { port_number: Some(PortNumber(port_number)), ..self@ }),
    {
        Predicate { port_number: Some(PortNumber(port_number)), ..self }
    }

    pub fn with_vendor_id(self, vendor_id: u16) -> (r: Self)
        ensures
            r@ == (SpecPredicate { vendor_id: Some(vendor_id), ..self@ }),
    {
        Predicate { vendor_id: Some(vendor_id), ..self }
    }

    pub fn with_product_id(self, product_id: u16) -> (r: Self)
        ensures
            r@ == (SpecPredicate { product_id: Some(product_id), ..self@ }),
    {
        Predicate { product_id: Some(product_id), ..self }
    }

    pub fn with_serial_number(self, serial_number: String) -> (r: Self)
        ensures
            r@ == (SpecPredicate { serial_number: Some(serial_number@), ..self@ }),
    {
        Predicate { serial_number: Some(serial_number), ..self }
    }

    pub fn with_manufacturer(self, manufacturer: String) -> (r: Self)
        ensures
            r@ == (SpecPredicate { manufacturer: Some(manufacturer@), ..self@ }),
    {
        Predicate { manufacturer: Some(manufacturer), ..self }
    }

    pub fn with_product(self, product: String) -> (r: Self)
        ensures
            r@ == (SpecPredicate { product: Some(product@), ..self@ }),
    {
        Predicate { product: Some(product), ..self }
    }

    pub fn with_id(self, vendor_id: u16, product_id: u16) -> (r: Self)
        ensures
            r@ == (SpecPredicate { vendor_id: Some(vendor_id), product_id: Some(product_id), ..self@ }),
    {
        Predicate { vendor_id: Some(vendor_id), product_id: Some(product_id), ..self }
    }

    /// Whether `node` meets every constraint of this predicate.
    pub fn apply<T>(&self, node: &Node<T>) -> (r: bool)
        ensures
            r == pred_holds(self@, *node),
    {
        if let Some(t) = self.node_type {
            if t != node.node_type {
                return false;
            }
        }
        if let Some(p) = self.port_number {
            if p != node.port_number() {
                return false;
            }
        }
        if let Some(v) = self.vendor_id {
            if v != node.vendor_id {
                return false;
            }
        }
        if let Some(v) = self.product_id {
            if v != node.product_id {
                return false;
            }
        }
        text_filter_passes(&self.serial_number, &node.serial_number)
            && text_filter_passes(&self.manufacturer, &node.manufacturer)
            && text_filter_passes(&self.product, &node.product)
    }
}

/// The constraints of `p`, each as text: the node
/// type, then `port=`, `vid=` and `pid=` with decimal numbers, then
/// `serial=`, `manufacturer=` and `product=` with the strings.
pub open spec fn constraint_texts(p: SpecPredicate) -> Seq<Seq<char>> {
    (match p.node_type {
        Some(t) => seq![node_type_text(t)],
        None => seq![],
    }) + (match p.port_number {
        Some(q) => seq![seq!['p', 'o', 'r', 't', '='] + decimal(q.0 as nat)],
        None => seq![],
    }) + (match p.vendor_id {
        Some(v) => seq![seq!['v', 'i', 'd', '='] + decimal(v as nat)],
        None => seq![],
    }) + (match p.product_id {
        Some(v) => seq![seq!['p', 'i', 'd', '='] + decimal(v as nat)],
        None => seq![],
    }) + (match p.serial_number {
        Some(t) => seq![seq!['s', 'e', 'r', 'i', 'a', 'l', '='] + t],
        None => seq![],
    }) + (match p.manufacturer {
        Some(t) => seq![seq!['m', 'a', 'n', 'u', 'f', 'a', 'c', 't', 'u', 'r', 'e', 'r', '='] + t],
        None => seq![],
    }) + (match p.product {
        Some(t) => seq![seq!['p', 'r', 'o', 'd', 'u', 'c', 't', '='] + t],
        None => seq![],
    })
}

/// Texts joined by `, `.
pub open spec fn joined(fs: Seq<Seq<char>>) -> Seq<char>
    decreases fs.len(),
{
    if fs.len() == 0 {
        seq![]
    } else if fs.len() == 1 {
        fs[0]
    } else {
        joined(fs.drop_last()) + seq![',', ' '] + fs.last()
    }
}

/// A readable description of a predicate: `Predicate(` and its constraints
/// joined by `, `, then `)`.
pub open spec fn describe_predicate(p: SpecPredicate) -> Seq<char> {
    seq!['P', 'r', 'e', 'd', 'i', 'c', 'a', 't', 'e', '('] + joined(constraint_texts(p)) + seq![')']
}

/// The texts of some strings.
pub open spec fn texts(v: Seq<String>) -> Seq<Seq<char>> {
    v.map_values(|t: String| t@)
}

fn push_field(fields: &mut Vec<String>, name: &[char], value: &str)
    ensures
        texts(final(fields)@) == texts(old(fields)@).push(name@ + value@),
{
    let mut f = String::new();
    push_chars(&mut f, name);
    push_str(&mut f, value);
    fields.push(f);
    assert(texts(fields@) =~= texts(old(fields)@).push(name@ + value@));
}

fn push_number_field(fields: &mut Vec<String>, name: &[char], value: u16)
    ensures
        texts(final(fields)@) == texts(old(fields)@).push(name@ + decimal(value as nat)),
{
    let mut f = String::new();
    push_chars(&mut f, name);
    push_decimal(&mut f, value);
    fields.push(f);
    assert(texts(fields@) =~= texts(old(fields)@).push(name@ + decimal(value as nat)));
}

/// The texts joined by `, `.
fn join_with_commas(fields: &Vec<String>) -> (r: String)
    ensures
        r@ == joined(texts(fields@)),
{
    let mut out = String::new();
    let ghost all = texts(fields@);
    assert(all.subrange(0, 0) =~= Seq::<Seq<char>>::empty());
    assert(out@ =~= joined(all.subrange(0, 0)));
    let mut i: usize = 0;
    while i < fields.len()
        invariant
            i <= fields@.len(),
            all == texts(fields@),
            out@ == joined(all.subrange(0, i as int)),
        decreases fields@.len() - i,
    {
        if i > 0 {
            push_chars(&mut out, &[',', ' ']);
            proof {
                assert([',', ' ']@ == seq![',', ' ']);
            }
        }
        push_str(&mut out, fields[i].as_str());
        proof {
            let sub = all.subrange(0, i + 1);
            assert(sub.drop_last() =~= all.subrange(0, i as int));
            assert(sub.last() == fields@[i as int]@);
            if i == 0 {
                assert(joined(sub) == sub[0]);
                assert(joined(all.subrange(0, 0)) == Seq::<char>::empty());
            }
        }
        i = i + 1;
        assert(out@ =~= joined(all.subrange(0, i as int)));
    }
    assert(all.subrange(0, all.len() as int) =~= all);
    out
}

impl Predicate {
    /// The texts of the constraints that this predicate sets.
    #[verifier::rlimit(60)]
    #[verifier::spinoff_prover]
    fn constraint_strings(&self) -> (r: Vec<String>)
        ensures
            texts(r@) == constraint_texts(self@),
    {
        let ghost p = self@;
        let mut fields: Vec<String> = Vec::new();
        if let Some(t) = self.node_type {
            let mut f = String::new();
            match t {
                NodeType::Hub => push_chars(&mut f, &['H', 'u', 'b']),
                NodeType::Device => push_chars(&mut f, &['D', 'e', 'v', 'i', 'c', 'e']),
            }
            proof {
                assert(['H', 'u', 'b']@ == seq!['H', 'u', 'b']);
                assert(['D', 'e', 'v', 'i', 'c', 'e']@ == seq!['D', 'e', 'v', 'i', 'c', 'e']);
            }
            assert(f@ =~= node_type_text(t));
            fields.push(f);
        }
        let ghost t1 = texts(fields@);
        assert(t1 =~= match p.node_type {
            Some(t) => seq![node_type_text(t)],
            None => Seq::<Seq<char>>::empty(),
        });
        let port = ['p', 'o', 'r', 't', '='];
        let vid = ['v', 'i', 'd', '='];
        let pid = ['p', 'i', 'd', '='];
        let serial = ['s', 'e', 'r', 'i', 'a', 'l', '='];
        let manufacturer = ['m', 'a', 'n', 'u', 'f', 'a', 'c', 't', 'u', 'r', 'e', 'r', '='];
        let product = ['p', 'r', 'o', 'd', 'u', 'c', 't', '='];
        assert(port@ == seq!['p', 'o', 'r', 't', '=']);
        assert(vid@ == seq!['v', 'i', 'd', '=']);
        assert(pid@ == seq!['p', 'i', 'd', '=']);
        assert(serial@ == seq!['s', 'e', 'r', 'i', 'a', 'l', '=']);
        assert(manufacturer@ == seq!['m', 'a', 'n', 'u', 'f', 'a', 'c', 't', 'u', 'r', 'e', 'r', '=']);
        assert(product@ == seq!['p', 'r', 'o', 'd', 'u', 'c', 't', '=']);
        if let Some(q) = self.port_number {
            push_number_field(&mut fields, &port, q.0 as u16);
        }
        let ghost t2 = texts(fields@);
        assert(t2 =~= t1 + match p.port_number {
            Some(q) => seq![seq!['p', 'o', 'r', 't', '='] + decimal(q.0 as nat)],
            None => Seq::<Seq<char>>::empty(),
        });
        if let Some(v) = self.vendor_id {
            push_number_field(&mut fields, &vid, v);
        }
        let ghost t3 = texts(fields@);
        assert(t3 =~= t2 + match p.vendor_id {
            Some(v) => seq![seq!['v', 'i', 'd', '='] + decimal(v as nat)],
            None => Seq::<Seq<char>>::empty(),
        });
        if let Some(v) = self.product_id {
            push_number_field(&mut fields, &pid, v);
        }
        let ghost t4 = texts(fields@);
        assert(t4 =~= t3 + match p.product_id {
            Some(v) => seq![seq!['p', 'i', 'd', '='] + decimal(v as nat)],
            None => Seq::<Seq<char>>::empty(),
        });
        if let Some(t) = &self.serial_number {
            push_field(&mut fields, &serial, t.as_str());
        }
        let ghost t5 = texts(fields@);
        assert(t5 =~= t4 + match p.serial_number {
            Some(t) => seq![seq!['s', 'e', 'r', 'i', 'a', 'l', '='] + t],
            None => Seq::<Seq<char>>::empty(),
        });
        if let Some(t) = &self.manufacturer {
            push_field(&mut fields, &manufacturer, t.as_str());
        }
        let ghost t6 = texts(fields@);
        assert(t6 =~= t5 + match p.manufacturer {
            Some(t) => seq![seq!['m', 'a', 'n', 'u', 'f', 'a', 'c', 't', 'u', 'r', 'e', 'r', '='] + t],
            None => Seq::<Seq<char>>::empty(),
        });
        if let Some(t) = &self.product {
            push_field(&mut fields, &product, t.as_str());
        }
        assert(texts(fields@) =~= t6 + match p.product {
            Some(t) => seq![seq!['p', 'r', 'o', 'd', 'u', 'c', 't', '='] + t],
            None => Seq::<Seq<char>>::empty(),
        });
        assert(texts(fields@) =~= constraint_texts(p));
        fields
    }

    /// A readable description of the predicate, as in
    /// `Predicate(Hub, port=3, vid=4660)`: the constraints that it sets,
    /// numbers in decimal.
    pub fn describe(&self) -> (r: String)
        ensures
            r@ == describe_predicate(self@),
    {
        let fields = self.constraint_strings();
        let body = join_with_commas(&fields);
        let mut out = String::new();
        push_chars(&mut out, &['P', 'r', 'e', 'd', 'i', 'c', 'a', 't', 'e', '(']);
        push_str(&mut out, body.as_str());
        push_char(&mut out, ')');
        proof {
            assert(['P', 'r', 'e', 'd', 'i', 'c', 'a', 't', 'e', '(']@ == seq!['P', 'r', 'e', 'd', 'i', 'c', 'a', 't', 'e', '(']);
        }
        assert(out@ =~= describe_predicate(self@));
        out
    }
}

/// The default predicate matches every node.
impl Default for Predicate {
    fn default() -> (r: Self)
        ensures
            r@ == empty_predicate(),
    {
        Predicate::new()
    }
}

fn same_text(a: &Option<String>, b: &Option<String>) -> (r: bool)
    ensures
        r == (opt_text(*a) == opt_text(*b)),
{
    match (a, b) {
        (Some(x), Some(y)) => *x == *y,
        (None, None) => true,
        _ => false,
    }
}

/// Two predicates are equal when they set the same constraints.
impl PartialEq for Predicate {
    fn eq(&self, other: &Predicate) -> (r: bool) {
        let same_type = match (self.node_type, other.node_type) {
            (Some(x), Some(y)) => x == y,
            (None, None) => true,
            _ => false,
        };
        let same_port = match (self.port_number, other.port_number) {
            (Some(x), Some(y)) => x == y,
            (None, None) => true,
            _ => false,
        };
        let same_vendor = match (self.vendor_id, other.vendor_id) {
            (Some(x), Some(y)) => x == y,
            (None, None) => true,
            _ => false,
        };
        let same_product_id = match (self.product_id, other.product_id) {
            (Some(x), Some(y)) => x == y,
            (None, None) => true,
            _ => false,
        };
        same_type && same_port && same_vendor && same_product_id && same_text(
            &self.serial_number,
            &other.serial_number,
        ) && same_text(&self.manufacturer, &other.manufacturer) && same_text(
            &self.product,
            &other.product,
        )
    }
}

impl vstd::std_specs::cmp::PartialEqSpecImpl for Predicate {
    open spec fn obeys_eq_spec() -> bool {
        true
    }

    open spec fn eq_spec(&self, other: &Predicate) -> bool {
        self@ == other@
    }
}

} // verus!
