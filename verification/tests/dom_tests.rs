use dom_tree::dom::AttrMap;
use dom_tree::dom::ElementData;
use dom_tree::dom::Node;
use dom_tree::dom::NodeType;
use dom_tree::dom::elem;
use dom_tree::dom::text;
use dom_tree::pretty::pretty_print;

fn attrs(pairs: &[(&str, &str)]) -> AttrMap {
    let mut m = AttrMap::new();
    for (k, v) in pairs {
        m.insert(k.to_string(), v.to_string());
    }
    m
}

#[test]
fn attr_map_insert_and_get() {
    let m = attrs(&[("id", "x"), ("class", "a b")]);
    assert_eq!(m.len(), 2);
    assert_eq!(m.get("id"), Some(&"x".to_string()));
    assert_eq!(m.get("class"), Some(&"a b".to_string()));
    assert_eq!(m.get("missing"), None);
}

#[test]
fn attr_map_insert_replaces_value() {
    let mut m = AttrMap::new();
    m.insert("id".to_string(), "first".to_string());
    m.insert("id".to_string(), "second".to_string());
    assert_eq!(m.len(), 1);
    assert_eq!(m.get("id"), Some(&"second".to_string()));
}

#[test]
fn get_id_present() {
    let e = ElementData::new("div".to_string(), attrs(&[("id", "x")]));
    assert_eq!(e.get_id(), Some(&"x".to_string()));
}

#[test]
fn get_id_absent() {
    let e = ElementData::new("div".to_string(), attrs(&[("class", "a")]));
    assert_eq!(e.get_id(), None);
}

#[test]
fn get_classes_splits_on_space() {
    let e = ElementData::new("div".to_string(), attrs(&[("class", "a b c")]));
    assert_eq!(e.get_classes(), vec!["a".to_string(), "b".to_string(), "c".to_string()]);
}

#[test]
fn get_classes_absent_is_empty() {
    let e = ElementData::new("div".to_string(), attrs(&[]));
    assert_eq!(e.get_classes(), Vec::<String>::new());
}

#[test]
fn get_classes_keeps_empty_pieces() {
    // splitting is on the literal space character only, empty pieces included
    let e = ElementData::new("div".to_string(), attrs(&[("class", "a  b")]));
    assert_eq!(e.get_classes(), vec!["a".to_string(), "".to_string(), "b".to_string()]);
}

#[test]
fn get_classes_does_not_split_tabs() {
    let e = ElementData::new("div".to_string(), attrs(&[("class", "a\tb")]));
    assert_eq!(e.get_classes(), vec!["a\tb".to_string()]);
}

#[test]
fn get_classes_drops_repeats() {
    let e = ElementData::new("div".to_string(), attrs(&[("class", "a b a")]));
    assert_eq!(e.get_classes(), vec!["a".to_string(), "b".to_string()]);
}

#[test]
fn pretty_print_childless_element() {
    let n = Node::new(
        NodeType::Element(ElementData::new("div".to_string(), AttrMap::new())),
        Vec::new(),
    );
    let lines = pretty_print(&n, 0);
    assert_eq!(
        lines,
        vec![
            "ElementData { tag_name: \"div\", attributes: {} }".to_string(),
            "<div/>".to_string(),
        ]
    );
}

#[test]
fn pretty_print_text_single_line() {
    let n = Node::new(NodeType::Text("hello".to_string()), Vec::new());
    let lines = pretty_print(&n, 0);
    assert_eq!(lines, vec!["hello".to_string()]);
}

#[test]
fn pretty_print_comment_single_line() {
    let n = Node::new(NodeType::Comment("note".to_string()), Vec::new());
    assert_eq!(pretty_print(&n, 0), vec!["<-!--note-->".to_string()]);
    assert_eq!(pretty_print(&n, 3), vec!["   <-!--note-->".to_string()]);
}

#[test]
fn pretty_print_attributes_in_element_line() {
    let n = Node::new(
        NodeType::Element(ElementData::new("p".to_string(), attrs(&[("class", "x")]))),
        Vec::new(),
    );
    let lines = pretty_print(&n, 0);
    assert_eq!(
        lines,
        vec![
            "ElementData { tag_name: \"p\", attributes: {\"class\": \"x\"} }".to_string(),
            "<p/>".to_string(),
        ]
    );
}

#[test]
fn pretty_print_two_attributes_in_insertion_order() {
    let n = Node::new(
        NodeType::Element(ElementData::new(
            "a".to_string(),
            attrs(&[("href", "y"), ("id", "z")]),
        )),
        Vec::new(),
    );
    let lines = pretty_print(&n, 0);
    assert_eq!(
        lines[0],
        "ElementData { tag_name: \"a\", attributes: {\"href\": \"y\", \"id\": \"z\"} }".to_string()
    );
}

#[test]
fn pretty_print_nested_list() {
    let li1 = elem(
        "li".to_string(),
        AttrMap::new(),
        vec![text("one".to_string())],
    );
    let li2 = elem(
        "li".to_string(),
        AttrMap::new(),
        vec![text("two".to_string())],
    );
    let ul = elem("ul".to_string(), AttrMap::new(), vec![li1, li2]);
    let lines = pretty_print(&ul, 0);
    assert_eq!(
        lines,
        vec![
            "ElementData { tag_name: \"ul\", attributes: {} }".to_string(),
            "  ElementData { tag_name: \"li\", attributes: {} }".to_string(),
            "    one".to_string(),
            "  <li/>".to_string(),
            "  ElementData { tag_name: \"li\", attributes: {} }".to_string(),
            "    two".to_string(),
            "  <li/>".to_string(),
            "<ul/>".to_string(),
        ]
    );
}

#[test]
fn pretty_print_line_count_is_nodes_plus_elements() {
    // four nodes, two of them elements: six lines in all
    let inner = elem(
        "span".to_string(),
        AttrMap::new(),
        vec![text("t".to_string()), Node::new(NodeType::Comment("c".to_string()), Vec::new())],
    );
    let root = elem("div".to_string(), AttrMap::new(), vec![inner]);
    let lines = pretty_print(&root, 0);
    assert_eq!(lines.len(), 6);
    assert_eq!(
        lines,
        vec![
            "ElementData { tag_name: \"div\", attributes: {} }".to_string(),
            "  ElementData { tag_name: \"span\", attributes: {} }".to_string(),
            "    t".to_string(),
            "    <-!--c-->".to_string(),
            "  <span/>".to_string(),
            "<div/>".to_string(),
        ]
    );
}

#[test]
fn pretty_print_starts_at_given_indent() {
    let n = text("hello".to_string());
    assert_eq!(pretty_print(&n, 4), vec!["    hello".to_string()]);
}

#[test]
fn text_helper_builds_childless_text_node() {
    let n = text("data".to_string());
    assert!(n.children.is_empty());
    assert!(matches!(n.node_type, NodeType::Text(ref t) if t == "data"));
}

#[test]
fn elem_helper_builds_element_node() {
    let n = elem("div".to_string(), attrs(&[("id", "x")]), vec![text("hi".to_string())]);
    assert_eq!(n.children.len(), 1);
    match &n.node_type {
        NodeType::Element(e) => {
            assert_eq!(e.tag_name, "div");
            assert_eq!(e.get_id(), Some(&"x".to_string()));
        }
        other => panic!("expected an element, got {:?}", other),
    }
}
