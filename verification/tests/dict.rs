use rxml::attrs::Attrs;
use rxml::common::f_str;
use rxml::dict::{Dict, ValidationError};
use rxml::entities::{HashmapTypes, Node};

#[test]
fn test_from_dict() {
    let mut hash1 = Dict::new();
    let mut attrs = Attrs::new();
    let mut hash2 = Dict::new();
    hash2.insert(f_str("name"), HashmapTypes::String(f_str("test")));
    hash2.insert(f_str("attrs"), HashmapTypes::StringMap(Attrs::new()));
    hash2.insert(f_str("children"), HashmapTypes::Vec(Vec::new()));
    hash2.insert(
        f_str("text"),
        HashmapTypes::NullableString(Some(f_str("test"))),
    );

    attrs.insert(f_str("test"), f_str("test"));

    hash1.insert(f_str("name"), HashmapTypes::String(f_str("test")));
    hash1.insert(f_str("attrs"), HashmapTypes::StringMap(attrs));
    hash1.insert(f_str("children"), HashmapTypes::Vec(vec![(hash2)]));
    hash1.insert(f_str("text"), HashmapTypes::NullableString(None));

    let node = Node::from_dict(&hash1).unwrap();
    assert_eq!(node.name, "test");
    assert_eq!(node.attrs.len(), 1);
    assert_eq!(node.attrs.get("test").unwrap(), "test");
    assert_eq!(node.children.len(), 1);
    assert_eq!(node.children[0].text.clone().unwrap(), f_str("test"));
    assert_eq!(node.text, None);
}

#[test]
fn test_to_dict() {
    let mut attrs = Attrs::new();
    attrs.insert(f_str("test"), f_str("test"));
    let mut node = Node::new(
        f_str("test"),
        Some(attrs.clone()),
        Some(Vec::new()),
        Some(f_str("test")),
    );
    let child_node = Node::new(
        f_str("test new"),
        Some(attrs.clone()),
        Some(Vec::new()),
        Some(f_str("test")),
    );
    node.children.push(child_node);
    let hash = node.to_dict();
    assert_eq!(
        hash.get("name").unwrap(),
        &HashmapTypes::String(f_str("test"))
    );
    assert_eq!(hash.get("attrs").unwrap(), &HashmapTypes::StringMap(attrs));
    assert_eq!(
        hash.get("children").unwrap().clone(),
        HashmapTypes::Vec(vec![node.children[0].to_dict()])
    );
    assert_eq!(
        hash.get("text").unwrap(),
        &HashmapTypes::NullableString(Some(f_str("test")))
    );
}

fn sample() -> Node {
    let mut attrs = Attrs::new();
    attrs.insert(f_str("a"), f_str("1"));
    attrs.insert(f_str("b"), f_str("2"));
    let mut root = Node::new(f_str("root"), Some(attrs), None, None);
    let mut child = Node::new(f_str("child"), None, None, Some(f_str("text")));
    child.children.push(Node::new(f_str("leaf"), None, None, None));
    root.children.push(child);
    root.children.push(Node::new(f_str("child"), None, None, None));
    root
}

#[test]
fn test_dict_round_trip() {
    let tree = sample();
    let back = Node::from_dict(&tree.to_dict()).unwrap();
    assert_eq!(back.name, "root");
    assert_eq!(back.attrs.len(), 2);
    assert_eq!(back.attrs.key_at(0), "a");
    assert_eq!(back.attrs.value_at(1), "2");
    assert_eq!(back.text, None);
    assert_eq!(back.children.len(), 2);
    assert_eq!(back.children[0].name, "child");
    assert_eq!(back.children[0].text.as_deref(), Some("text"));
    assert_eq!(back.children[0].children.len(), 1);
    assert_eq!(back.children[0].children[0].name, "leaf");
    assert_eq!(back.children[1].children.len(), 0);
    assert_eq!(back.to_dict(), tree.to_dict());
    assert_eq!(back.describe(None), tree.describe(None));
    assert_eq!(back, tree);
}

#[test]
fn test_to_dict_has_four_keys() {
    let dict = sample().to_dict();
    assert_eq!(dict.len(), 4);
    assert_eq!(dict.get("text").unwrap(), &HashmapTypes::NullableString(None));
    assert_eq!(dict.get("other"), None);
}

fn complete() -> Dict {
    let mut dict = Dict::new();
    dict.insert(f_str("name"), HashmapTypes::String(f_str("n")));
    dict.insert(f_str("attrs"), HashmapTypes::StringMap(Attrs::new()));
    dict.insert(f_str("children"), HashmapTypes::Vec(Vec::new()));
    dict
}

#[test]
fn test_from_dict_missing_name() {
    let mut dict = Dict::new();
    dict.insert(f_str("attrs"), HashmapTypes::StringMap(Attrs::new()));
    dict.insert(f_str("children"), HashmapTypes::Vec(Vec::new()));
    dict.insert(f_str("text"), HashmapTypes::NullableString(None));
    assert_eq!(Node::from_dict(&dict).err(), Some(ValidationError::Name));
    assert_eq!(Node::from_dict(&Dict::new()).err(), Some(ValidationError::Name));
}

#[test]
fn test_from_dict_mistyped_name() {
    let mut dict = complete();
    dict.insert(f_str("name"), HashmapTypes::NullableString(Some(f_str("n"))));
    assert_eq!(Node::from_dict(&dict).err(), Some(ValidationError::Name));
}

#[test]
fn test_from_dict_invalid_attrs() {
    let mut dict = Dict::new();
    dict.insert(f_str("name"), HashmapTypes::String(f_str("n")));
    dict.insert(f_str("children"), HashmapTypes::Vec(Vec::new()));
    assert_eq!(Node::from_dict(&dict).err(), Some(ValidationError::Attrs));
    dict.insert(f_str("attrs"), HashmapTypes::String(f_str("no mapping")));
    assert_eq!(Node::from_dict(&dict).err(), Some(ValidationError::Attrs));
}

#[test]
fn test_from_dict_invalid_children() {
    let mut dict = Dict::new();
    dict.insert(f_str("name"), HashmapTypes::String(f_str("n")));
    dict.insert(f_str("attrs"), HashmapTypes::StringMap(Attrs::new()));
    assert_eq!(Node::from_dict(&dict).err(), Some(ValidationError::Children));
    dict.insert(f_str("children"), HashmapTypes::String(f_str("no list")));
    assert_eq!(Node::from_dict(&dict).err(), Some(ValidationError::Children));
}

#[test]
fn test_from_dict_error_in_child() {
    let mut bad = Dict::new();
    bad.insert(f_str("name"), HashmapTypes::String(f_str("kid")));
    let mut dict = complete();
    dict.insert(f_str("children"), HashmapTypes::Vec(vec![complete(), bad, Dict::new()]));
    assert_eq!(Node::from_dict(&dict).err(), Some(ValidationError::Attrs));
}

#[test]
fn test_from_dict_text_forms() {
    let mut dict = complete();
    assert_eq!(Node::from_dict(&dict).unwrap().text, None);
    dict.insert(f_str("text"), HashmapTypes::String(f_str("plain")));
    assert_eq!(Node::from_dict(&dict).unwrap().text.as_deref(), Some("plain"));
    dict.insert(f_str("text"), HashmapTypes::NullableString(Some(f_str("nullable"))));
    assert_eq!(Node::from_dict(&dict).unwrap().text.as_deref(), Some("nullable"));
    dict.insert(f_str("text"), HashmapTypes::Vec(Vec::new()));
    assert_eq!(Node::from_dict(&dict).unwrap().text, None);
}

#[test]
fn test_validation_error_messages() {
    assert_eq!(ValidationError::Name.message(), "Invalid name");
    assert_eq!(ValidationError::Attrs.message(), "Invalid attrs");
    assert_eq!(ValidationError::Children.message(), "Invalid children");
}

#[test]
fn test_dict_insert_replaces() {
    let mut dict = Dict::new();
    assert_eq!(dict.insert(f_str("k"), HashmapTypes::String(f_str("1"))), None);
    assert_eq!(
        dict.insert(f_str("k"), HashmapTypes::String(f_str("2"))),
        Some(HashmapTypes::String(f_str("1")))
    );
    assert_eq!(dict.len(), 1);
    assert_eq!(dict.get("k").unwrap(), &HashmapTypes::String(f_str("2")));
}

#[test]
fn test_dict_equality_ignores_key_order() {
    let mut a = Dict::new();
    a.insert(f_str("x"), HashmapTypes::String(f_str("1")));
    a.insert(f_str("y"), HashmapTypes::NullableString(None));
    let mut b = Dict::new();
    b.insert(f_str("y"), HashmapTypes::NullableString(None));
    b.insert(f_str("x"), HashmapTypes::String(f_str("1")));
    assert!(a == b);
    assert_eq!(HashmapTypes::Vec(vec![a.clone(), b.clone()]), HashmapTypes::Vec(vec![b.clone(), a.clone()]));
    b.insert(f_str("x"), HashmapTypes::String(f_str("2")));
    assert!(a != b);
    assert_ne!(HashmapTypes::Vec(vec![a.clone()]), HashmapTypes::Vec(vec![b.clone()]));
    assert_ne!(HashmapTypes::Vec(vec![a.clone()]), HashmapTypes::Vec(vec![a.clone(), a.clone()]));
    assert_ne!(
        HashmapTypes::NullableString(Some(f_str("1"))),
        HashmapTypes::NullableString(None)
    );
    let mut c = a.clone();
    c.insert(f_str("z"), HashmapTypes::Vec(Vec::new()));
    assert!(a != c);
}
