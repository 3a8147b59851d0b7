use rxml::attrs::Attrs;
use rxml::common::f_str;
use rxml::entities::{HashmapTypes, Node, SearchType};

#[test]
fn test_node() {
    let mut attrs = Attrs::new();
    attrs.insert(f_str("test"), f_str("test"));
    let mut node = Node::new(
        f_str("test"),
        Some(attrs.clone()),
        Some(Vec::new()),
        Some(f_str("test")),
    );
    assert_eq!(node.name, String::from("test"));
    assert_eq!(node.attrs.len(), 1);
    assert_eq!(node.attrs.get("test").unwrap(), "test");
    assert_eq!(node.children.len(), 0);
    assert_eq!(node.text.clone().unwrap(), "test");
    let mut child_node = Node::new(
        f_str("test new"),
        Some(attrs.clone()),
        Some(Vec::new()),
        Some(f_str("test")),
    );
    let second_child_node = Node::new(
        f_str("test new"),
        Some(attrs),
        Some(Vec::new()),
        Some(f_str("test")),
    );
    child_node.children.push(second_child_node);
    node.children.push(child_node);
    assert_eq!(node.search_by_name("test", None).len(), 1);
    assert_eq!(node.search_by_name("test new", Some(2)).len(), 2);
    assert_eq!(node.search_by_attr("test", Some(2)).len(), 3);
    assert_eq!(node.search_by_text("test", Some(2)).len(), 3);
}

#[test]
fn test_node_new_defaults() {
    let node = Node::new(f_str("n"), None, None, None);
    assert_eq!(node.name, "n");
    assert!(node.attrs.is_empty());
    assert_eq!(node.children.len(), 0);
    assert_eq!(node.text, None);
}

fn leaf(name: &str) -> Node {
    Node::new(f_str(name), None, None, None)
}

fn chain() -> Node {
    let g = leaf("g");
    let mut c = leaf("c");
    c.children.push(g);
    let mut r = leaf("r");
    r.children.push(c);
    r
}

#[test]
fn test_search_includes_start() {
    let mut root = leaf("x");
    root.children.push(leaf("y"));
    let found = root.search(SearchType::Tag, "x", None);
    assert!(found.len() >= 1);
    assert_eq!(found[0].name, "x");
    assert_eq!(found[0].children.len(), 1);
    assert_eq!(found[0].to_dict(), root.to_dict());
}

#[test]
fn test_search_depth_bound() {
    let r = chain();
    assert_eq!(r.search(SearchType::Tag, "g", Some(0)).len(), 0);
    assert_eq!(r.search(SearchType::Tag, "g", Some(1)).len(), 0);
    let found = r.search(SearchType::Tag, "g", Some(2));
    assert_eq!(found.len(), 1);
    assert_eq!(found[0].name, "g");
    assert_eq!(r.search(SearchType::Tag, "g", None).len(), 1);
}

#[test]
fn test_search_depth_zero_tests_start_only() {
    let mut root = leaf("a");
    root.children.push(leaf("a"));
    assert_eq!(root.search(SearchType::Tag, "a", Some(0)).len(), 1);
    assert_eq!(root.search(SearchType::Tag, "a", Some(1)).len(), 2);
    assert_eq!(root.search(SearchType::Tag, "b", Some(0)).len(), 0);
}

#[test]
fn test_search_negative_depth_is_no_limit() {
    let r = chain();
    assert_eq!(r.search(SearchType::Tag, "g", Some(-1)).len(), 1);
    assert_eq!(r.search(SearchType::Tag, "g", Some(i32::MIN)).len(), 1);
}

#[test]
fn test_search_attr_ignores_value() {
    let mut one = Attrs::new();
    one.insert(f_str("id"), f_str("1"));
    let mut other = Attrs::new();
    other.insert(f_str("id"), f_str("something else"));
    let a = Node::new(f_str("a"), Some(one), None, None);
    let b = Node::new(f_str("b"), Some(other), None, None);
    assert_eq!(a.search(SearchType::Attr, "id", None).len(), 1);
    assert_eq!(b.search(SearchType::Attr, "id", Some(0)).len(), 1);
    assert_eq!(a.search(SearchType::Attr, "1", None).len(), 0);
    assert_eq!(a.search(SearchType::Attr, "i", None).len(), 0);
}

#[test]
fn test_search_text_is_exact() {
    let mut root = Node::new(f_str("r"), None, None, Some(f_str("hello")));
    root.children.push(Node::new(f_str("c"), None, None, Some(f_str("hello world"))));
    root.children.push(Node::new(f_str("d"), None, None, Some(f_str("hello"))));
    let found = root.search(SearchType::Text, "hello", None);
    assert_eq!(found.len(), 2);
    assert_eq!(found[0].name, "r");
    assert_eq!(found[1].name, "d");
    assert_eq!(root.search(SearchType::Text, "hell", None).len(), 0);
    assert_eq!(root.search(SearchType::Text, "", None).len(), 0);
}

#[test]
fn test_search_is_pre_order() {
    let mut first = leaf("k");
    first.children.push(Node::new(f_str("k"), None, None, Some(f_str("inner"))));
    let mut root = leaf("k");
    root.children.push(first);
    root.children.push(Node::new(f_str("k"), None, None, Some(f_str("last"))));
    let found = root.search_by_name("k", None);
    assert_eq!(found.len(), 4);
    assert_eq!(found[0].children.len(), 2);
    assert_eq!(found[1].children.len(), 1);
    assert_eq!(found[2].text.as_deref(), Some("inner"));
    assert_eq!(found[3].text.as_deref(), Some("last"));
}

#[test]
fn test_clone_is_deep() {
    let r = chain();
    let mut copy = r.clone();
    copy.children[0].children[0].name = f_str("changed");
    assert_eq!(r.children[0].children[0].name, "g");
    assert_eq!(copy.children[0].children[0].name, "changed");
}

#[test]
fn test_describe() {
    let mut attrs = Attrs::new();
    attrs.insert(f_str("k"), f_str("v"));
    let mut root = Node::new(f_str("root"), Some(attrs), None, Some(f_str("t")));
    root.children.push(leaf("kid"));
    assert_eq!(
        root.describe(None),
        "Name: root\nAttributes:\nk: v\nText: t\nChildren:\n  Name: kid\n"
    );
    assert_eq!(root.display(), root.describe(Some(0)));
    assert_eq!(leaf("kid").describe(Some(3)), "   Name: kid");
    assert_eq!(
        root.describe(Some(1)),
        " Name: root\n Attributes:\n k: v\n Text: t\n Children:\n    Name: kid\n"
    );
}

#[test]
fn test_repr() {
    assert_eq!(leaf("kid").repr(), "Node(kid)");
}

#[test]
fn test_hashmap_types_equality() {
    let mut a = Attrs::new();
    a.insert(f_str("x"), f_str("1"));
    a.insert(f_str("y"), f_str("2"));
    let mut b = Attrs::new();
    b.insert(f_str("y"), f_str("2"));
    b.insert(f_str("x"), f_str("1"));
    assert_eq!(HashmapTypes::StringMap(a), HashmapTypes::StringMap(b));
    assert_ne!(HashmapTypes::String(f_str("x")), HashmapTypes::NullableString(Some(f_str("x"))));
}

#[test]
fn test_child_by_name() {
    let mut root = leaf("r");
    root.children.push(Node::new(f_str("a"), None, None, Some(f_str("first"))));
    let mut b = leaf("b");
    b.children.push(leaf("deep"));
    root.children.push(b);
    root.children.push(Node::new(f_str("a"), None, None, Some(f_str("second"))));
    assert_eq!(root.child_by_name("a").unwrap().text.as_deref(), Some("first"));
    assert_eq!(root.child_by_name("b").unwrap().children.len(), 1);
    assert!(root.child_by_name("deep").is_none());
    assert!(root.child_by_name("r").is_none());
    assert!(leaf("x").child_by_name("x").is_none());
}

#[test]
fn test_child_at() {
    let r = chain();
    assert_eq!(r.child_at(0).unwrap().name, "c");
    assert!(r.child_at(1).is_none());
    assert!(leaf("x").child_at(0).is_none());
}

#[test]
fn test_levels_within() {
    let r = chain();
    assert!(!r.levels_within(0));
    assert!(!r.levels_within(2));
    assert!(r.levels_within(3));
    assert!(r.levels_within(usize::MAX));
    assert!(leaf("x").levels_within(1));
}

#[test]
fn test_node_equality() {
    let r = chain();
    assert!(r == r.clone());
    let mut other = chain();
    other.children[0].children[0].text = Some(f_str("t"));
    assert!(r != other);
    let mut a = Attrs::new();
    a.insert(f_str("x"), f_str("1"));
    a.insert(f_str("y"), f_str("2"));
    let mut b = Attrs::new();
    b.insert(f_str("y"), f_str("2"));
    b.insert(f_str("x"), f_str("1"));
    let one = Node::new(f_str("n"), Some(a), Some(vec![leaf("k"), leaf("l")]), None);
    let two = Node::new(f_str("n"), Some(b), Some(vec![leaf("k"), leaf("l")]), None);
    let swapped = Node::new(f_str("n"), None, Some(vec![leaf("l"), leaf("k")]), None);
    assert!(one == two);
    assert!(one != swapped);
    assert!(leaf("a") != leaf("b"));
    assert!(leaf("a") != Node::new(f_str("a"), None, None, Some(f_str(""))));
}
