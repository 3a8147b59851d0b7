use rxml::common::f_str;
use rxml::read::read_string;

#[test]
fn test_read_self_closing_tag() {
    let xml_string = f_str("<?xml version=\"1.0\" encoding=\"utf-8\"?><tag><wrapper><inner1>value</inner1><inner2 attr=\"attr\"/><inner3>value</inner3></wrapper></tag>");
    let node = read_string(xml_string, f_str("tag")).unwrap();
    assert_eq!(node.children[0].children.len(), 3);
}

#[test]
fn test_read_scenario() {
    let xml = f_str("<root a=\"1\"><child>text1</child><child/></root>");
    let node = read_string(xml, f_str("root")).unwrap();
    assert_eq!(node.name, "root");
    assert_eq!(node.attrs.len(), 1);
    assert_eq!(node.attrs.get("a").unwrap(), "1");
    assert_eq!(node.text, None);
    assert_eq!(node.children.len(), 2);
    assert_eq!(node.children[0].name, "child");
    assert_eq!(node.children[0].text.as_ref().unwrap(), "text1");
    assert_eq!(node.children[0].children.len(), 0);
    assert_eq!(node.children[1].name, "child");
    assert_eq!(node.children[1].text, None);
    assert_eq!(node.children[1].children.len(), 0);
}

#[test]
fn test_read_nested_document() {
    let xml = f_str("<?xml version=\"1.0\" encoding=\"utf-8\"?>\n<root test=\"test\">\n    <child test=\"test\">\n        <child>test</child>\n    </child>\n</root>");
    let node = read_string(xml, f_str("root")).unwrap();
    assert_eq!(node.name, f_str("root"));
    assert_eq!(node.attrs.len(), 1);
    assert_eq!(node.attrs.get("test").unwrap(), "test");
    assert_eq!(node.children.len(), 1);
    assert_eq!(node.children[0].name, f_str("child"));
    assert_eq!(node.children[0].attrs.len(), 1);
    assert_eq!(node.children[0].attrs.get("test").unwrap(), "test");
    assert_eq!(node.children[0].text, None);
    assert_eq!(node.children[0].children.len(), 1);
    assert_eq!(node.children[0].children[0].name, f_str("child"));
    assert_eq!(node.children[0].children[0].attrs.len(), 0);
    assert_eq!(node.children[0].children[0].text.as_ref().unwrap(), "test");
    assert_eq!(node.children[0].children[0].children.len(), 0);
}

#[test]
fn test_read_self_closing_equals_empty_element() {
    let short = read_string(f_str("<r><a k=\"v\"/></r>"), f_str("r")).unwrap();
    let long = read_string(f_str("<r><a k=\"v\"></a></r>"), f_str("r")).unwrap();
    assert_eq!(short.to_dict(), long.to_dict());
    assert_eq!(short.children.len(), 1);
    assert_eq!(short.children[0].name, "a");
    assert_eq!(short.children[0].attrs.get("k").unwrap(), "v");
    assert_eq!(short.children[0].children.len(), 0);
    assert_eq!(short.children[0].text, None);
    let top_short = read_string(f_str("<a/>"), f_str("r")).unwrap();
    let top_long = read_string(f_str("<a></a>"), f_str("r")).unwrap();
    assert_eq!(top_short.to_dict(), top_long.to_dict());
    assert_eq!(top_short.children.len(), 1);
}

#[test]
fn test_read_self_closing_root_is_a_child() {
    let node = read_string(f_str("<a/>"), f_str("a")).unwrap();
    assert_eq!(node.name, "a");
    assert_eq!(node.children.len(), 1);
    assert_eq!(node.children[0].name, "a");
    let plain = read_string(f_str("<a></a>"), f_str("a")).unwrap();
    assert_eq!(plain.children.len(), 0);
}

#[test]
fn test_read_unescapes_text_and_attributes() {
    let xml = f_str("<r a=\"x &amp; &quot;y&quot;\">1 &lt; 2 &#65;</r>");
    let node = read_string(xml, f_str("r")).unwrap();
    assert_eq!(node.attrs.get("a").unwrap(), "x & \"y\"");
    assert_eq!(node.text.as_deref(), Some("1 < 2 A"));
}

#[test]
fn test_read_trims_text() {
    let node = read_string(f_str("<r>\n   padded text  \n</r>"), f_str("r")).unwrap();
    assert_eq!(node.text.as_deref(), Some("padded text"));
    let blank = read_string(f_str("<r>\n   <a/>\n</r>"), f_str("r")).unwrap();
    assert_eq!(blank.text, None);
}

#[test]
fn test_read_mixed_content_keeps_last_text() {
    let node = read_string(f_str("<r>one<a/>two<b/>three</r>"), f_str("r")).unwrap();
    assert_eq!(node.text.as_deref(), Some("three"));
    assert_eq!(node.children.len(), 2);
}

#[test]
fn test_read_ignores_comments_and_instructions() {
    let xml = f_str("<?xml version=\"1.0\"?><!-- c --><r><?pi x?><!-- d --><a/><![CDATA[raw]]></r>");
    let node = read_string(xml, f_str("r")).unwrap();
    assert_eq!(node.children.len(), 1);
    assert_eq!(node.text, None);
}

#[test]
fn test_read_other_root_becomes_child() {
    let node = read_string(f_str("<x k=\"v\"><y/></x>"), f_str("root")).unwrap();
    assert_eq!(node.name, "root");
    assert_eq!(node.attrs.len(), 0);
    assert_eq!(node.children.len(), 1);
    assert_eq!(node.children[0].name, "x");
    assert_eq!(node.children[0].attrs.get("k").unwrap(), "v");
    assert_eq!(node.children[0].children.len(), 1);
}

#[test]
fn test_read_stops_at_root_end() {
    let node = read_string(f_str("<r><a/></r><later></broken>"), f_str("r")).unwrap();
    assert_eq!(node.children.len(), 1);
}

#[test]
fn test_read_truncated_document() {
    let node = read_string(f_str("<r k=\"v\"><a>text"), f_str("r")).unwrap();
    assert_eq!(node.name, "r");
    assert_eq!(node.attrs.get("k").unwrap(), "v");
    assert_eq!(node.children.len(), 1);
    assert_eq!(node.children[0].text.as_deref(), Some("text"));
    let empty = read_string(f_str(""), f_str("r")).unwrap();
    assert_eq!(empty.name, "r");
    assert_eq!(empty.children.len(), 0);
}

#[test]
fn test_read_mismatched_end_is_an_error() {
    let error = read_string(f_str("<r><a></b></r>"), f_str("r")).err().unwrap();
    assert_eq!(error.offset, 10);
}

#[test]
fn test_read_unclosed_tag_is_an_error() {
    assert!(read_string(f_str("<r><a"), f_str("r")).is_err());
}

#[test]
fn test_read_malformed_attribute_is_an_error() {
    assert!(read_string(f_str("<r a=1></r>"), f_str("r")).is_err());
    assert!(read_string(f_str("<r a=\"1\" a=\"2\"></r>"), f_str("r")).is_err());
    assert!(read_string(f_str("<r><c a></c></r>"), f_str("r")).is_err());
}

#[test]
fn test_read_unknown_entity_is_an_error() {
    let error = read_string(f_str("<r>&nothing;</r>"), f_str("r")).err().unwrap();
    assert_eq!(error.offset, 12);
    assert!(read_string(f_str("<r a=\"&nothing;\"/>"), f_str("x")).is_err());
}
