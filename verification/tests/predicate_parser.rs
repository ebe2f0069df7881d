use usbselector::parser::predicate::{
    parse_attribute, parse_attribute_key, parse_attributes, parse_hex_id, parse_node_type,
    parse_predicate,
};
use usbselector::{NodeType, PortNumber, Predicate};

#[test]
fn test_parse_node_type() {
  let mut input = "*";
  assert_eq!(parse_node_type(&mut input).unwrap(), None);

  let mut input = "hub";
  assert_eq!(parse_node_type(&mut input).unwrap(), Some(NodeType::Hub));

  let mut input = "device";
  assert_eq!(parse_node_type(&mut input).unwrap(), Some(NodeType::Device));

  let mut input = "invalid";
  assert!(parse_node_type(&mut input).is_err());
}

#[test]
fn test_parse_attribute_key() {
  let mut input = "port";
  assert_eq!(parse_attribute_key(&mut input).unwrap(), "port");

  let mut input = "vid";
  assert_eq!(parse_attribute_key(&mut input).unwrap(), "vid");

  let mut input = "pid";
  assert_eq!(parse_attribute_key(&mut input).unwrap(), "pid");

  let mut input = "serial";
  assert_eq!(parse_attribute_key(&mut input).unwrap(), "serial");

  let mut input = "manufacturer";
  assert_eq!(parse_attribute_key(&mut input).unwrap(), "manufacturer");

  let mut input = "product";
  assert_eq!(parse_attribute_key(&mut input).unwrap(), "product");

  let mut input = "invalid";
  assert!(parse_attribute_key(&mut input).is_err());
}

#[test]
fn test_parse_attribute_port() {
  let mut input = "port=123";
  let (key, value) = parse_attribute(&mut input).unwrap();
  assert_eq!(key, "port");
  assert_eq!(value, "123");
}

#[test]
fn test_parse_attribute_vid() {
  let mut input = "vid=1234";
  let (key, value) = parse_attribute(&mut input).unwrap();
  assert_eq!(key, "vid");
  assert_eq!(value, "1234");

  let mut input = "vid=0x1234";
  let (key, value) = parse_attribute(&mut input).unwrap();
  assert_eq!(key, "vid");
  assert_eq!(value, "1234");
}

#[test]
fn test_parse_attribute_pid() {
  let mut input = "pid=abcd";
  let (key, value) = parse_attribute(&mut input).unwrap();
  assert_eq!(key, "pid");
  assert_eq!(value, "abcd");

  let mut input = "pid=0xABCD";
  let (key, value) = parse_attribute(&mut input).unwrap();
  assert_eq!(key, "pid");
  assert_eq!(value, "ABCD");
}

#[test]
fn test_parse_attribute_string() {
  let mut input = r#"serial="USB123""#;
  let (key, value) = parse_attribute(&mut input).unwrap();
  assert_eq!(key, "serial");
  assert_eq!(value, "USB123");

  let mut input = r#"manufacturer="Logitech""#;
  let (key, value) = parse_attribute(&mut input).unwrap();
  assert_eq!(key, "manufacturer");
  assert_eq!(value, "Logitech");

  let mut input = r#"product="USB Mouse""#;
  let (key, value) = parse_attribute(&mut input).unwrap();
  assert_eq!(key, "product");
  assert_eq!(value, "USB Mouse");
}

#[test]
fn test_parse_attributes_single() {
  let mut input = "[port=3]";
  let attrs = parse_attributes(&mut input).unwrap();
  assert_eq!(attrs.len(), 1);
  assert_eq!(attrs.get("port").unwrap(), "3");
}

#[test]
fn test_parse_attributes_multiple() {
  let mut input = r#"[port=3, vid=1234, manufacturer="Logitech"]"#;
  let attrs = parse_attributes(&mut input).unwrap();
  assert_eq!(attrs.len(), 3);
  assert_eq!(attrs.get("port").unwrap(), "3");
  assert_eq!(attrs.get("vid").unwrap(), "1234");
  assert_eq!(attrs.get("manufacturer").unwrap(), "Logitech");
}

#[test]
fn test_parse_attributes_with_spaces() {
  let mut input = r#"[ port = 3 , vid = 1234 ]"#;
  let attrs = parse_attributes(&mut input).unwrap();
  assert_eq!(attrs.len(), 2);
  assert_eq!(attrs.get("port").unwrap(), "3");
  assert_eq!(attrs.get("vid").unwrap(), "1234");
}

#[test]
fn test_parse_attributes_duplicate_error() {
  let mut input = "[port=3, port=4]";
  assert!(parse_attributes(&mut input).is_err());
}

#[test]
fn test_parse_hex_id() {
  assert_eq!(parse_hex_id(None).unwrap(), None);
  assert_eq!(parse_hex_id(Some(&"1234".to_string())).unwrap(), Some(0x1234));
  assert_eq!(parse_hex_id(Some(&"abcd".to_string())).unwrap(), Some(0xABCD));
  assert_eq!(parse_hex_id(Some(&"ABCD".to_string())).unwrap(), Some(0xABCD));
  assert!(parse_hex_id(Some(&"invalid".to_string())).is_err());
}

#[test]
fn test_parse_predicate_wildcard() {
  let mut input = "*";
  let (predicate, is_subject) = parse_predicate(&mut input).unwrap();
  assert!(!is_subject);
  assert_eq!(predicate, Predicate::new());
}

#[test]
fn test_parse_predicate_hub() {
  let mut input = "hub";
  let (predicate, is_subject) = parse_predicate(&mut input).unwrap();
  assert!(!is_subject);
  assert_eq!(predicate, Predicate::new().with_node_type(NodeType::Hub));
}

#[test]
fn test_parse_predicate_device() {
  let mut input = "device";
  let (predicate, is_subject) = parse_predicate(&mut input).unwrap();
  assert!(!is_subject);
  assert_eq!(predicate, Predicate::new().with_node_type(NodeType::Device));
}

#[test]
fn test_parse_predicate_with_port() {
  let mut input = "hub[port=3]";
  let (predicate, is_subject) = parse_predicate(&mut input).unwrap();
  assert!(!is_subject);
  assert_eq!(
    predicate,
    Predicate::new().with_node_type(NodeType::Hub).with_port_number(3)
  );
}

#[test]
fn test_parse_predicate_with_ids() {
  let mut input = "device[vid=1234, pid=5678]";
  let (predicate, is_subject) = parse_predicate(&mut input).unwrap();
  assert!(!is_subject);
  assert_eq!(
    predicate,
    Predicate::new()
      .with_node_type(NodeType::Device)
      .with_vendor_id(0x1234)
      .with_product_id(0x5678)
  );
}

#[test]
fn test_parse_predicate_with_id() {
  let mut input = "device[id=18d1:1234]";
  let (predicate, is_subject) = parse_predicate(&mut input).unwrap();
  assert!(!is_subject);
  assert_eq!(
    predicate,
    Predicate::new()
      .with_node_type(NodeType::Device)
      .with_vendor_id(0x18d1)
      .with_product_id(0x1234)
  );
}

#[test]
fn test_parse_predicate_with_id_uppercase() {
  let mut input = "device[id=ABCD:EF01]";
  let (predicate, is_subject) = parse_predicate(&mut input).unwrap();
  assert!(!is_subject);
  assert_eq!(
    predicate,
    Predicate::new()
      .with_node_type(NodeType::Device)
      .with_vendor_id(0xABCD)
      .with_product_id(0xEF01)
  );
}

#[test]
fn test_parse_predicate_with_id_0x_prefix() {
  let mut input = "device[id=0x18d1:1234]";
  let (predicate, is_subject) = parse_predicate(&mut input).unwrap();
  assert!(!is_subject);
  assert_eq!(
    predicate,
    Predicate::new()
      .with_node_type(NodeType::Device)
      .with_vendor_id(0x18d1)
      .with_product_id(0x1234)
  );
}

#[test]
fn test_parse_predicate_id_conflict_with_vid() {
  let mut input = "device[id=18d1:1234, vid=0000]";
  assert!(parse_predicate(&mut input).is_err());
}

#[test]
fn test_parse_predicate_id_conflict_with_pid() {
  let mut input = "device[id=18d1:1234, pid=0000]";
  assert!(parse_predicate(&mut input).is_err());
}

#[test]
fn test_parse_predicate_with_strings() {
  let mut input = r#"device[serial="USB123", manufacturer="Logitech", product="USB Mouse"]"#;
  let (predicate, is_subject) = parse_predicate(&mut input).unwrap();
  assert!(!is_subject);
  assert_eq!(
    predicate,
    Predicate::new()
      .with_node_type(NodeType::Device)
      .with_serial_number("USB123".into())
      .with_manufacturer("Logitech".into())
      .with_product("USB Mouse".into())
  );
}

#[test]
fn predicate_test_parse_port_number_error() {
  let mut input = "hub[port=invalid]";
  assert!(parse_predicate(&mut input).is_err());
}

#[test]
fn predicate_test_parse_hex_id_error() {
  let mut input = "device[vid=xyz]";
  assert!(parse_predicate(&mut input).is_err());
}

#[test]
fn test_parse_attributes_with_extra_spaces() {
  let mut input = "[  port  =  123  ,  vid  =  abcd  ]";
  let attrs = parse_attributes(&mut input).unwrap();
  assert_eq!(attrs.len(), 2);
  assert_eq!(attrs.get("port").unwrap(), "123");
  assert_eq!(attrs.get("vid").unwrap(), "abcd");
}

#[test]
fn test_parse_hex_id_boundary_values() {
  assert_eq!(parse_hex_id(Some(&"0000".to_string())).unwrap(), Some(0x0000));
  assert_eq!(parse_hex_id(Some(&"9999".to_string())).unwrap(), Some(0x9999));
  assert_eq!(parse_hex_id(Some(&"aaaa".to_string())).unwrap(), Some(0xaaaa));
  assert_eq!(parse_hex_id(Some(&"AAAA".to_string())).unwrap(), Some(0xAAAA));
  assert_eq!(parse_hex_id(Some(&"ffff".to_string())).unwrap(), Some(0xffff));
  assert_eq!(parse_hex_id(Some(&"FFFF".to_string())).unwrap(), Some(0xFFFF));
}

#[test]
fn test_parse_port_boundary_values() {
  let mut input = "*[port=0]";
  let (predicate, _) = parse_predicate(&mut input).unwrap();
  assert_eq!(predicate.port_number, Some(PortNumber(0)));

  let mut input = "*[port=255]";
  let (predicate, _) = parse_predicate(&mut input).unwrap();
  assert_eq!(predicate.port_number, Some(PortNumber(255)));

  let mut input = "*[port=256]";
  assert!(parse_predicate(&mut input).is_err());
}

#[test]
fn test_parse_predicate_all_attributes() {
  let mut input = r#"device[port=3, vid=1234, pid=5678, serial="SN123", manufacturer="ACME", product="Widget"]"#;
  let (predicate, is_subject) = parse_predicate(&mut input).unwrap();
  assert!(!is_subject);
  assert_eq!(predicate.node_type, Some(NodeType::Device));
  assert_eq!(predicate.port_number, Some(PortNumber(3)));
  assert_eq!(predicate.vendor_id, Some(0x1234));
  assert_eq!(predicate.product_id, Some(0x5678));
  assert_eq!(predicate.serial_number, Some("SN123".to_string()));
  assert_eq!(predicate.manufacturer, Some("ACME".to_string()));
  assert_eq!(predicate.product, Some("Widget".to_string()));
}

#[test]
fn test_parse_error_invalid_hex_length() {
  // Hex values longer than 4 characters should be rejected
  let mut input = "device[vid=12345]"; // Too long
  let result = parse_predicate(&mut input);
  assert!(result.is_err(), "5-character hex should be rejected");

  // Hex values shorter than 4 characters should be accepted (equivalent to 0-padded)
  let mut input = "device[vid=123]"; // Short but valid
  let result = parse_predicate(&mut input);
  assert!(result.is_ok(), "3-character hex should be accepted");
  let (predicate, _) = result.unwrap();
  assert_eq!(predicate.vendor_id, Some(0x123)); // Should parse as 0x0123
}

#[test]
fn test_parse_error_missing_quotes() {
  let mut input = "device[manufacturer=Logitech]"; // Missing quotes
  let result = parse_predicate(&mut input);
  assert!(result.is_err(), "String attributes should require quotes");
}

#[test]
fn test_parse_error_empty_attribute_value() {
  let mut input = "device[port=]";
  assert!(parse_predicate(&mut input).is_err());

  let mut input = r#"device[serial=""]"#; // Empty string should be OK
  let (predicate, _) = parse_predicate(&mut input).unwrap();
  assert_eq!(predicate.serial_number, Some("".to_string()));
}

#[test]
fn test_parse_predicate_subject_selector() {
  let mut input = "!hub";
  let (predicate, is_subject) = parse_predicate(&mut input).unwrap();
  assert!(is_subject);
  assert_eq!(predicate.node_type, Some(NodeType::Hub));

  let mut input = "! hub";
  let (predicate, is_subject) = parse_predicate(&mut input).unwrap();
  assert!(is_subject);
  assert_eq!(predicate.node_type, Some(NodeType::Hub));

  let mut input = "!device";
  let (predicate, is_subject) = parse_predicate(&mut input).unwrap();
  assert!(is_subject);
  assert_eq!(predicate.node_type, Some(NodeType::Device));

  let mut input = "!*";
  let (predicate, is_subject) = parse_predicate(&mut input).unwrap();
  assert!(is_subject);
  assert_eq!(predicate.node_type, None);

  // Test subject selector with attributes
  let mut input = "!hub[port=3]";
  let (predicate, is_subject) = parse_predicate(&mut input).unwrap();
  assert!(is_subject);
  assert_eq!(predicate.node_type, Some(NodeType::Hub));
  assert_eq!(predicate.port_number, Some(PortNumber(3)));

  // Test subject selector with whitespace and attributes
  let mut input = "! device[vid=1234]";
  let (predicate, is_subject) = parse_predicate(&mut input).unwrap();
  assert!(is_subject);
  assert_eq!(predicate.node_type, Some(NodeType::Device));
  assert_eq!(predicate.vendor_id, Some(0x1234));
}

#[test]
fn test_parse_predicate_whitespace_handling() {
  // Test various whitespace patterns with subject selectors
  let mut input = "  !  hub  ";
  let (predicate, is_subject) = parse_predicate(&mut input).unwrap();
  assert!(is_subject);
  assert_eq!(predicate.node_type, Some(NodeType::Hub));

  // Test whitespace before and after !
  let mut input = "  !   device  ";
  let (predicate, is_subject) = parse_predicate(&mut input).unwrap();
  assert!(is_subject);
  assert_eq!(predicate.node_type, Some(NodeType::Device));

  // Test normal predicate (no !) with whitespace
  let mut input = "  hub  ";
  let (predicate, is_subject) = parse_predicate(&mut input).unwrap();
  assert!(!is_subject);
  assert_eq!(predicate.node_type, Some(NodeType::Hub));
}
