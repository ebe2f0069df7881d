use usbselector::node::sort_by_address;
use usbselector::parser::predicate::{parse_predicate, AttrKey};
use usbselector::parser::scan::{ParseError, Problem};
use usbselector::parser::util::{character, string, u16_hex, unicode_escape};
use usbselector::topology::{DeviceInfo, DeviceRecord};
use usbselector::{Combinator, Expression, Node, NodeType, PortNumber, Predicate, Selector};

fn node(
    address: &[u8],
    node_type: NodeType,
    vendor_id: u16,
    product_id: u16,
    manufacturer: Option<&str>,
    children: Vec<Node<()>>,
) -> Node<()> {
    Node {
        children,
        node_type,
        bus_address: address.iter().map(|p| PortNumber(*p)).collect(),
        vendor_id,
        product_id,
        serial_number: None,
        manufacturer: manufacturer.map(|m| m.to_string()),
        product: None,
        userdata: None,
    }
}

/// Bus 1: root hub 1, hub 1.2 holding a Logitech receiver at 1.2.3 and
/// another device at 1.2.4, and a Corsair keyboard at 1.5.
/// Bus 2: root hub 2, a Logitech mouse at 2.1.
fn forest() -> Vec<Node<()>> {
    let receiver = node(&[1, 2, 3], NodeType::Device, 0x046d, 0xc52b, Some("Logitech"), vec![]);
    let other = node(&[1, 2, 4], NodeType::Device, 0x1234, 0x5678, None, vec![]);
    let inner = node(&[1, 2], NodeType::Hub, 0x05e3, 0x0610, None, vec![receiver, other]);
    let keyboard = node(&[1, 5], NodeType::Device, 0x1b1c, 0x1b3d, Some("Corsair"), vec![]);
    let root1 = node(&[1], NodeType::Hub, 0x1d6b, 0x0002, None, vec![inner, keyboard]);
    let mouse = node(&[2, 1], NodeType::Device, 0x046d, 0xc077, Some("Logitech"), vec![]);
    let root2 = node(&[2], NodeType::Hub, 0x1d6b, 0x0003, None, vec![mouse]);
    vec![root1, root2]
}

fn addresses(nodes: &[&Node<()>]) -> Vec<Vec<u8>> {
    let mut out: Vec<Vec<u8>> = nodes.iter().map(|n| n.bus_address.iter().map(|p| p.0).collect()).collect();
    out.sort();
    out
}

fn select(text: &str) -> Vec<Vec<u8>> {
    let devices = forest();
    let selector = Selector::parse(text).unwrap();
    let selected = selector.select(&devices);
    addresses(&selected)
}

#[test]
fn select_children_of_hubs() {
    assert_eq!(select("hub > device[vid=046d]"), vec![vec![1, 2, 3], vec![2, 1]]);
}

#[test]
fn select_subject_hub_with_child() {
    assert_eq!(select("!hub > device[vid=046d]"), vec![vec![1, 2], vec![2]]);
}

#[test]
fn select_subject_hub_with_descendant() {
    assert_eq!(select("!hub device[vid=046d]"), vec![vec![1], vec![1, 2], vec![2]]);
    assert_eq!(select("!hub device[vid=1b1c]"), vec![vec![1]]);
}

#[test]
fn select_intermediate_hub() {
    assert_eq!(select("hub > !hub > device"), vec![vec![1, 2]]);
}

#[test]
fn select_by_attributes() {
    assert_eq!(select("device[vid=0x046d, pid=0xc077]"), vec![vec![2, 1]]);
    assert_eq!(select("*[id=046d:c52b]"), vec![vec![1, 2, 3]]);
    assert_eq!(select("device[manufacturer=\"Logitech\"]"), vec![vec![1, 2, 3], vec![2, 1]]);
    assert_eq!(select("hub[port=2]"), vec![vec![1, 2], vec![2]]);
    assert_eq!(select("hub[port=1] device"), vec![vec![1, 2, 3], vec![1, 2, 4], vec![1, 5]]);
    assert_eq!(select("device[vid=ffff]"), Vec::<Vec<u8>>::new());
}

#[test]
fn select_current_and_descendants() {
    assert_eq!(select("hub[port=2] % *"), vec![vec![1, 2], vec![1, 2, 3], vec![1, 2, 4], vec![2], vec![2, 1]]);
    assert_eq!(select("hub[vid=05e3] %> *"), vec![vec![1, 2], vec![1, 2, 3], vec![1, 2, 4]]);
}

#[test]
fn select_with_subexpression() {
    // Devices on port 4 of hubs that hold a Logitech device.
    assert_eq!(select("(!hub > device[manufacturer=\"Logitech\"]) > device[port=4]"), vec![vec![1, 2, 4]]);
    assert_eq!(select("(!hub > device[manufacturer=\"Corsair\"]) > hub"), vec![vec![1, 2]]);
}

#[test]
fn select_last_subject_is_default() {
    assert_eq!(select("hub > !device"), select("hub > device"));
    assert_eq!(select("hub > hub > !device"), select("hub > hub > device"));
}

#[test]
fn select_results_are_forest_nodes_meeting_subject() {
    let devices = forest();
    let selector = Selector::parse("!device device").unwrap();
    assert!(selector.select(&devices).is_empty());
    let selector = Selector::parse("!hub > device").unwrap();
    for n in selector.select(&devices) {
        assert_eq!(n.node_type, NodeType::Hub);
    }
}

#[test]
fn select_no_repeats() {
    let devices = forest();
    let selector = Selector::parse("hub device").unwrap();
    let selected = selector.select(&devices);
    assert_eq!(addresses(&selected), vec![vec![1, 2, 3], vec![1, 2, 4], vec![1, 5], vec![2, 1]]);
    assert_eq!(selected.len(), 4);
}

#[test]
fn format_full_and_short_address() {
    let mut n = node(&[1, 2, 3], NodeType::Device, 0x046d, 0xc52b, Some("Logitech"), vec![]);
    n.product = Some("USB Receiver".to_string());
    n.serial_number = Some("AB12".to_string());
    assert_eq!(n.format(true), "[1.2.3] ID 046d:c52b Logitech USB Receiver (Serial: AB12) (Device)");
    assert_eq!(n.format(false), "[3] ID 046d:c52b Logitech USB Receiver (Serial: AB12) (Device)");
    let hub = node(&[10], NodeType::Hub, 0x1d6b, 0x0002, None, vec![]);
    assert_eq!(hub.format(true), "[10] ID 1d6b:0002 (Hub)");
    let mut only_product = node(&[4, 255], NodeType::Device, 0x0a, 0xb, None, vec![]);
    only_product.product = Some("Widget".to_string());
    assert_eq!(only_product.format(true), "[4.255] ID 000a:000b Widget (Device)");
}

#[test]
fn port_number_is_last_port() {
    let n = node(&[1, 2, 7], NodeType::Device, 0, 0, None, vec![]);
    assert_eq!(n.port_number(), PortNumber(7));
    let bare = node(&[], NodeType::Device, 0, 0, None, vec![]);
    assert_eq!(bare.port_number(), PortNumber(0));
}

#[test]
fn dump_lists_the_tree() {
    let devices = forest();
    let text = devices[0].dump(0);
    assert_eq!(
        text,
        "[1] ID 1d6b:0002 (Hub)\n  [2] ID 05e3:0610 (Hub)\n    [3] ID 046d:c52b Logitech (Device)\n    [4] ID 1234:5678 (Device)\n  [5] ID 1b1c:1b3d Corsair (Device)\n"
    );
    assert_eq!(devices[1].dump(1), "  [2] ID 1d6b:0003 (Hub)\n    [1] ID 046d:c077 Logitech (Device)\n");
}

#[test]
fn sort_orders_by_bus_address() {
    let devices = forest();
    let selector = Selector::parse("*").unwrap();
    let selected = selector.select(&devices);
    let sorted = sort_by_address(selected);
    let order: Vec<Vec<u8>> = sorted.iter().map(|n| n.bus_address.iter().map(|p| p.0).collect()).collect();
    assert_eq!(
        order,
        vec![vec![1], vec![1, 2], vec![1, 2, 3], vec![1, 2, 4], vec![1, 5], vec![2], vec![2, 1]]
    );
}

fn info(class_code: u8, vendor_id: u16) -> Option<DeviceInfo> {
    Some(DeviceInfo {
        class_code,
        vendor_id,
        product_id: 1,
        manufacturer: None,
        product: Some("P".to_string()),
        serial_number: None,
    })
}

fn record(parent: Option<usize>, port_number: u8, bus_number: u8, info: Option<DeviceInfo>) -> DeviceRecord {
    DeviceRecord { parent, port_number, bus_number, info }
}

#[test]
fn from_devices_builds_tree_in_port_order() {
    let records = vec![
        record(Some(2), 3, 1, info(0, 0x0003)),
        record(None, 0, 2, info(9, 0x0200)),
        record(None, 0, 1, info(9, 0x0100)),
        record(Some(2), 1, 1, info(9, 0x0001)),
        record(Some(3), 4, 1, info(0, 0x0004)),
    ];
    let roots = Node::from_devices(&records);
    assert_eq!(roots.len(), 2);
    assert_eq!(roots[0].bus_address, vec![PortNumber(1)]);
    assert_eq!(roots[0].node_type, NodeType::Hub);
    assert_eq!(roots[0].vendor_id, 0x0100);
    assert_eq!(roots[0].userdata, Some(2));
    assert_eq!(roots[0].children.len(), 2);
    assert_eq!(roots[0].children[0].bus_address, vec![PortNumber(1), PortNumber(1)]);
    assert_eq!(roots[0].children[0].node_type, NodeType::Hub);
    assert_eq!(roots[0].children[0].children[0].bus_address, vec![PortNumber(1), PortNumber(1), PortNumber(4)]);
    assert_eq!(roots[0].children[1].bus_address, vec![PortNumber(1), PortNumber(3)]);
    assert_eq!(roots[0].children[1].node_type, NodeType::Device);
    assert_eq!(roots[0].children[1].product, Some("P".to_string()));
    assert_eq!(roots[1].bus_address, vec![PortNumber(2)]);
    assert!(roots[1].children.is_empty());
}

#[test]
fn from_devices_skips_unreadable_trees() {
    let records = vec![
        record(None, 0, 1, info(9, 1)),
        record(Some(0), 2, 1, None),
        record(None, 0, 3, info(9, 3)),
        record(Some(7), 1, 3, info(0, 4)),
    ];
    let roots = Node::from_devices(&records);
    assert_eq!(roots.len(), 1);
    assert_eq!(roots[0].bus_address, vec![PortNumber(3)]);
    assert!(roots[0].children.is_empty());
}

#[test]
fn from_devices_later_record_wins() {
    let records = vec![
        record(None, 0, 1, info(9, 1)),
        record(Some(0), 2, 1, info(0, 10)),
        record(Some(0), 2, 1, info(0, 11)),
        record(None, 0, 1, info(9, 2)),
    ];
    let roots = Node::from_devices(&records);
    assert_eq!(roots.len(), 1);
    assert_eq!(roots[0].vendor_id, 2);
    assert!(roots[0].children.is_empty());
    let records = vec![
        record(None, 0, 1, info(9, 1)),
        record(Some(0), 2, 1, info(0, 10)),
        record(Some(0), 2, 1, info(0, 11)),
    ];
    let roots = Node::from_devices(&records);
    assert_eq!(roots[0].children.len(), 1);
    assert_eq!(roots[0].children[0].vendor_id, 11);
}

#[test]
fn from_devices_then_select() {
    let records = vec![
        record(None, 0, 1, info(9, 0x1d6b)),
        record(Some(0), 2, 1, info(0, 0x046d)),
    ];
    let roots = Node::from_devices(&records);
    let selector = Selector::parse("!hub > device[vid=046d]").unwrap();
    let selected = selector.select(&roots);
    assert_eq!(selected.len(), 1);
    assert_eq!(selected[0].bus_address, vec![PortNumber(1)]);
}

#[test]
fn parse_error_messages() {
    assert_eq!(Selector::parse("!hub > !device").unwrap_err(), "invalid duplicate subject selectors");
    assert_eq!(Selector::parse("(hub > device").unwrap_err(), "unmatched parenthesis");
    assert_eq!(Selector::parse("hub)").unwrap_err(), "unexpected trailing input");
    assert_eq!(Selector::parse("hub[port=256]").unwrap_err(), "invalid port");
    assert_eq!(Selector::parse("hub[port=1, port=2]").unwrap_err(), "invalid duplicate attribute");
    assert_eq!(Selector::parse("device[id=1:2, vid=3]").unwrap_err(), "invalid conflicting id and vid/pid");
    assert_eq!(Selector::parse("device[vid=]").unwrap_err(), "invalid vendor id");
    assert_eq!(Selector::parse("device[pid=g]").unwrap_err(), "invalid product id");
    assert_eq!(Selector::parse("device[id=12:]").unwrap_err(), "invalid id");
    assert_eq!(Selector::parse("device[serial=\"abc]").unwrap_err(), "invalid quoted string");
    assert_eq!(Selector::parse("hub > > device").unwrap_err(), "invalid unexpected remaining input");
    assert_eq!(Selector::parse("router").unwrap_err(), "invalid selector");
    assert_eq!(Selector::parse("").unwrap_err(), "invalid selector");
}

#[test]
fn parse_ignores_surrounding_white_space() {
    let a = Selector::parse("\t\n hub > device \u{3000}").unwrap();
    let b = Selector::parse("hub > device").unwrap();
    assert_eq!(a, b);
}

#[test]
fn parse_strips_only_enclosing_parentheses() {
    let a = Selector::parse("(hub > device)").unwrap();
    assert_eq!(a.chain().len(), 2);
    let b = Selector::parse("(hub) > (device)").unwrap();
    assert_eq!(b.chain().len(), 2);
    assert!(matches!(b.chain()[0].1, Expression::Selector(_)));
    assert!(matches!(b.chain()[1].1, Expression::Selector(_)));
    let c = Selector::parse("(device[product=\")\"])").unwrap();
    assert_eq!(c.chain().len(), 1);
    assert_eq!(c.chain()[0].1, Predicate::new().with_node_type(NodeType::Device).with_product(")".to_string()));
}

#[test]
fn parse_escapes_in_strings() {
    let s = Selector::parse(r#"device[product="a\"b\\c\/d\n\u00e9\ud83d\ude00"]"#).unwrap();
    assert_eq!(
        s.chain()[0].1,
        Predicate::new().with_node_type(NodeType::Device).with_product("a\"b\\c/d\né😀".to_string())
    );
}

#[test]
fn string_reads_escapes() {
    let mut input = r#""x\ty" rest"#;
    assert_eq!(string(&mut input).unwrap(), "x\ty");
    assert_eq!(input, " rest");
    let mut input = "no quote";
    assert_eq!(string(&mut input), Err(ParseError::Backtrack));
    assert_eq!(input, "no quote");
    let mut input = "\"open";
    assert_eq!(string(&mut input), Err(ParseError::Cut(Problem::QuotedString)));
}

#[test]
fn character_reads_one() {
    let mut input = "ab";
    assert_eq!(character(&mut input), Ok('a'));
    assert_eq!(input, "b");
    let mut input = "\\bz";
    assert_eq!(character(&mut input), Ok('\x08'));
    assert_eq!(input, "z");
    let mut input = "\"";
    assert!(character(&mut input).is_err());
    let mut input = "\\q";
    assert!(character(&mut input).is_err());
}

#[test]
fn unicode_escape_decodes_code_points() {
    let mut input = "00e9!";
    assert_eq!(unicode_escape(&mut input), Ok('é'));
    assert_eq!(input, "!");
    let mut input = "d83d\\ude00";
    assert_eq!(unicode_escape(&mut input), Ok('😀'));
    assert_eq!(input, "");
    let mut input = "d83d";
    assert!(unicode_escape(&mut input).is_err());
    let mut input = "dc00";
    assert!(unicode_escape(&mut input).is_err());
}

#[test]
fn u16_hex_reads_four_characters() {
    let mut input = "BeEf0";
    assert_eq!(u16_hex(&mut input), Ok(0xbeef));
    assert_eq!(input, "0");
    let mut input = "+fff";
    assert_eq!(u16_hex(&mut input), Ok(0xfff));
    let mut input = "12";
    assert!(u16_hex(&mut input).is_err());
    let mut input = "12g4";
    assert!(u16_hex(&mut input).is_err());
}

#[test]
fn parse_predicate_leaves_rest() {
    let mut input = "hub[port=3] > device";
    let (p, subject) = parse_predicate(&mut input).unwrap();
    assert!(!subject);
    assert_eq!(p, Predicate::new().with_node_type(NodeType::Hub).with_port_number(3));
    assert_eq!(input, " > device");
    let mut input = "hubcap";
    let (p, _) = parse_predicate(&mut input).unwrap();
    assert_eq!(p, Predicate::new().with_node_type(NodeType::Hub));
    assert_eq!(input, "cap");
    let mut input = "*[port=007]";
    let (p, _) = parse_predicate(&mut input).unwrap();
    assert_eq!(p, Predicate::new().with_port_number(7));
}

#[test]
fn attribute_keys_by_name() {
    assert_eq!(usbselector::parser::predicate::key_of_name("manufacturer"), Some(AttrKey::Manufacturer));
    assert_eq!(usbselector::parser::predicate::key_of_name("ports"), None);
    assert_eq!(usbselector::parser::predicate::key_name(AttrKey::Pid), "pid");
}

#[test]
fn node_type_from_str() {
    assert_eq!("hub".parse::<NodeType>(), Ok(NodeType::Hub));
    assert_eq!("device".parse::<NodeType>(), Ok(NodeType::Device));
    assert_eq!("Hub".parse::<NodeType>(), Err(()));
    assert_eq!("*".parse::<NodeType>(), Err(()));
}

#[test]
fn predicate_apply_and_builders() {
    let n = node(&[1, 4], NodeType::Device, 0x046d, 0xc52b, Some("Logitech"), vec![]);
    assert!(Predicate::new().apply(&n));
    assert!(Predicate::new().with_port_number(4).with_id(0x046d, 0xc52b).apply(&n));
    assert!(!Predicate::new().with_port_number(5).apply(&n));
    assert!(!Predicate::new().with_node_type(NodeType::Hub).apply(&n));
    assert!(Predicate::new().with_manufacturer("Logitech".to_string()).apply(&n));
    assert!(!Predicate::new().with_product("Logitech".to_string()).apply(&n));
    assert!(!Predicate::new().with_serial_number("x".to_string()).apply(&n));
    assert_eq!(
        Predicate::new().with_id(1, 2),
        Predicate::new().with_vendor_id(1).with_product_id(2)
    );
    assert_eq!(Predicate::default(), Predicate::new());
}

#[test]
fn expression_equals_predicate() {
    let p = Predicate::new().with_node_type(NodeType::Hub);
    let e = Expression::Predicate(p.clone());
    assert_eq!(e, p);
    assert_eq!(p, e);
    let s = Expression::Selector(Box::new(Selector::new(vec![(Combinator::Children, Expression::Predicate(p.clone()))])));
    assert_ne!(s, p);
    assert_ne!(e, Predicate::new());
}

#[test]
fn selector_constructors() {
    let chain = vec![(Combinator::CurrentAndDescendants, Expression::Predicate(Predicate::new()))];
    let s = Selector::new_with_subject(chain, Some(0));
    assert_eq!(s.subject_index(), Some(0));
    assert_eq!(s.chain().len(), 1);
    let empty = Selector::new(vec![]);
    assert!(empty.select(&forest()).is_empty());
}

#[test]
fn predicate_description() {
    let p = Predicate::new().with_node_type(NodeType::Hub).with_port_number(3).with_vendor_id(0x1234);
    assert_eq!(p.describe(), "Predicate(Hub, port=3, vid=4660)");
    assert_eq!(Predicate::new().describe(), "Predicate()");
    let q = Predicate::new()
        .with_product_id(0xffff)
        .with_serial_number("S1".to_string())
        .with_manufacturer("ACME".to_string())
        .with_product("Widget".to_string());
    assert_eq!(q.describe(), "Predicate(pid=65535, serial=S1, manufacturer=ACME, product=Widget)");
}

#[test]
fn node_description_and_equality() {
    let a = node(&[1, 2], NodeType::Hub, 0x1d6b, 0x0002, None, vec![]);
    assert_eq!(a.describe(), "Hub (1d6b:0002)");
    let b = node(&[1, 2], NodeType::Device, 0x046d, 0xc52b, Some("Logitech"), vec![]);
    assert_eq!(b.describe(), "Device (046d:c52b)");
    assert!(a == b);
    let c = node(&[1, 3], NodeType::Hub, 0x1d6b, 0x0002, None, vec![]);
    assert!(a != c);
    let d = node(&[1], NodeType::Hub, 0x1d6b, 0x0002, None, vec![]);
    assert!(a != d);
}

#[test]
fn enclosing_parentheses_read_as_inner_selector() {
    assert_eq!(
        Selector::parse("(hub > device[vid=1234])").unwrap(),
        Selector::parse("hub > device[vid=1234]").unwrap()
    );
    // Text outside ASCII is unwrapped too.
    assert_eq!(
        Selector::parse("(*[serial=\"é\"])").unwrap(),
        Selector::parse("*[serial=\"é\"]").unwrap()
    );
    let s = Selector::parse("(device[product=\"é\"])").unwrap();
    assert_eq!(s.chain().len(), 1);
    assert_eq!(s.chain()[0].1, Predicate::new().with_node_type(NodeType::Device).with_product("é".to_string()));
    // Parentheses that close before the end are a sub-selector.
    let s = Selector::parse("(hub) > (device)").unwrap();
    assert!(matches!(s.chain()[0].1, Expression::Selector(_)));
}

#[test]
fn from_devices_builds_deep_chains() {
    let records = vec![
        record(None, 0, 1, info(9, 0)),
        record(Some(0), 1, 1, info(9, 1)),
        record(Some(1), 2, 1, info(9, 2)),
        record(Some(2), 3, 1, info(9, 3)),
        record(Some(3), 4, 1, info(0, 4)),
    ];
    let roots = Node::from_devices(&records);
    assert_eq!(roots.len(), 1);
    let mut n = &roots[0];
    for depth in 1..5 {
        assert_eq!(n.children.len(), 1);
        n = &n.children[0];
        assert_eq!(n.bus_address.len(), depth + 1);
    }
    assert_eq!(n.vendor_id, 4);
    assert_eq!(n.bus_address, vec![PortNumber(1), PortNumber(1), PortNumber(2), PortNumber(3), PortNumber(4)]);
    // A cycle of parent links hangs from no root and is left out.
    let records = vec![
        record(None, 0, 1, info(9, 0)),
        record(Some(2), 1, 1, info(0, 1)),
        record(Some(1), 1, 1, info(0, 2)),
    ];
    let roots = Node::from_devices(&records);
    assert_eq!(roots.len(), 1);
    assert!(roots[0].children.is_empty());
}

#[test]
fn parsed_selectors_have_the_syntax_shape() {
    let s = Selector::parse("hub > (!hub device) %> !*[port=2] device").unwrap();
    assert_eq!(s.chain()[0].0, Combinator::CurrentAndDescendants);
    assert_eq!(s.subject_index(), Some(2));
    assert!(matches!(s.chain()[2].1, Expression::Predicate(_)));
    match &s.chain()[1].1 {
        Expression::Selector(sub) => {
            assert_eq!(sub.chain()[0].0, Combinator::CurrentAndDescendants);
            assert_eq!(sub.subject_index(), Some(0));
            assert!(matches!(sub.chain()[0].1, Expression::Predicate(_)));
        }
        _ => panic!("expected a sub-selector"),
    }
}

#[test]
fn enclosing_parentheses_around_nested_and_quoted_parentheses() {
    assert_eq!(
        Selector::parse("(device[product=\"a)b\\\"(\"] > (hub %> *))").unwrap(),
        Selector::parse("device[product=\"a)b\\\"(\"] > (hub %> *)").unwrap()
    );
    let s = Selector::parse("(*[serial=\"\\u0029\"])").unwrap();
    assert_eq!(s.chain().len(), 1);
    assert_eq!(s.chain()[0].1, Predicate::new().with_serial_number(")".to_string()));
}
