use rxml::attrs::Attrs;
use rxml::common::f_str;
use rxml::entities::Node;
use rxml::write::{can_write, write_node_to_string, write_string};

fn root_node() -> Node {
    let mut attrs = Attrs::new();
    attrs.insert(f_str("test"), f_str("test"));
    let mut root = Node {
        name: f_str("root"),
        attrs: attrs.clone(),
        children: Vec::new(),
        text: None,
    };
    let mut child = Node {
        name: f_str("child"),
        attrs,
        children: Vec::new(),
        text: None,
    };
    child.children.push(Node {
        name: f_str("child"),
        attrs: Attrs::new(),
        children: Vec::new(),
        text: Some(f_str("test")),
    });
    root.children.push(child);
    root
}

fn expected_file() -> &'static str {
    "<?xml version=\"1.0\" encoding=\"utf-8\"?>\n<root test=\"test\">\n    <child test=\"test\">\n        <child>test</child>\n    </child>\n</root>"
}

#[test]
fn test_write_node_to_string() {
    let root = root_node();
    let expected = expected_file();
    let result = write_node_to_string(root, 4, true);
    assert_eq!(result, expected);
}

#[test]
fn test_write_string() {
    let root = root_node();
    let expected = expected_file();
    let result = write_string(root, Some(4), Some(true));
    assert_eq!(result, expected);
}

#[test]
fn test_write_without_declaration() {
    let result = write_node_to_string(root_node(), 2, false);
    assert_eq!(
        result,
        "<root test=\"test\">\n  <child test=\"test\">\n    <child>test</child>\n  </child>\n</root>"
    );
}

#[test]
fn test_write_string_defaults() {
    let with_defaults = write_string(root_node(), None, None);
    assert_eq!(with_defaults, expected_file());
    let bare = write_string(root_node(), None, Some(false));
    assert_eq!(format!("<?xml version=\"1.0\" encoding=\"utf-8\"?>\n{}", bare), expected_file());
}

#[test]
fn test_write_leaf() {
    let leaf = Node::new(f_str("a"), None, None, None);
    assert_eq!(write_node_to_string(leaf, 4, false), "<a>\n</a>");
    let text = Node::new(f_str("a"), None, None, Some(f_str("t")));
    assert_eq!(write_node_to_string(text, 4, false), "<a>t</a>");
}

#[test]
fn test_write_zero_indent() {
    assert_eq!(
        write_node_to_string(root_node(), 0, false),
        "<root test=\"test\">\n<child test=\"test\">\n<child>test</child>\n</child>\n</root>"
    );
}

#[test]
fn test_write_escapes() {
    let mut attrs = Attrs::new();
    attrs.insert(f_str("a"), f_str("x & \"y\" 'z'"));
    let node = Node::new(f_str("r"), Some(attrs), None, Some(f_str("1 < 2 > 0 \u{e9}")));
    assert_eq!(
        write_node_to_string(node, 4, false),
        "<r a=\"x &amp; &quot;y&quot; &apos;z&apos;\">1 &lt; 2 &gt; 0 \u{e9}</r>"
    );
}

#[test]
fn test_write_attributes_in_order() {
    let mut attrs = Attrs::new();
    attrs.insert(f_str("z"), f_str("1"));
    attrs.insert(f_str("a"), f_str("2"));
    attrs.insert(f_str("m"), f_str("3"));
    let node = Node::new(f_str("r"), Some(attrs), None, None);
    assert_eq!(write_node_to_string(node, 4, false), "<r z=\"1\" a=\"2\" m=\"3\">\n</r>");
}

#[test]
fn test_write_text_before_children() {
    let mut node = Node::new(f_str("r"), None, None, Some(f_str("t")));
    node.children.push(Node::new(f_str("a"), None, None, None));
    node.children.push(Node::new(f_str("b"), None, None, None));
    assert_eq!(
        write_node_to_string(node, 1, false),
        "<r>t<a>\n </a>\n <b>\n </b>\n</r>"
    );
}

#[test]
fn test_can_write() {
    assert!(can_write(&root_node(), 4));
    assert!(can_write(&root_node(), 0));
    assert!(can_write(&root_node(), usize::MAX / 6));
    assert!(!can_write(&root_node(), usize::MAX / 6 + 1));
    assert!(!can_write(&root_node(), usize::MAX));
    let leaf = Node::new(f_str("a"), None, None, None);
    assert!(can_write(&leaf, usize::MAX / 2));
    assert!(!can_write(&leaf, usize::MAX / 2 + 1));
}
