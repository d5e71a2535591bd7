use browser_engine::add_node;
use browser_engine::dom::{
    create_node, pretty_print, pretty_print_with_indent, AttrMap, ElementData, Node, NodeType,
};

#[test]
fn it_works_too() {
    assert!(true);
}

#[test]
fn it_works() {
    add_node();
}

#[test]
fn text_line_at_depth_one() {
    let node = Node::new(NodeType::Text("hello".to_string()), vec![]);
    let lines = pretty_print_with_indent(&node, 2);
    assert_eq!(lines, vec!["  hello".to_string()]);
}

#[test]
fn element_line_with_attribute() {
    let mut attrs = AttrMap::new();
    attrs.insert("id".to_string(), "x".to_string());
    let data = ElementData::new("div".to_string(), attrs);
    let node = Node::new(NodeType::Element(data), vec![]);
    let lines = pretty_print(&node);
    assert_eq!(lines, vec!["div id=\"x\"".to_string()]);
}

#[test]
fn element_line_without_attributes() {
    let data = ElementData::new("br".to_string(), AttrMap::new());
    let node = Node::new(NodeType::Element(data), vec![]);
    let lines = pretty_print(&node);
    assert_eq!(lines, vec!["br".to_string()]);
}

#[test]
fn comment_line_is_wrapped() {
    let node = Node::new(NodeType::Comment("note".to_string()), vec![]);
    let lines = pretty_print(&node);
    assert_eq!(lines, vec!["<!--note-->".to_string()]);
}

#[test]
fn classes_absent_attribute_gives_empty_set() {
    let data = ElementData::new("div".to_string(), AttrMap::new());
    let classes = data.get_classes();
    assert!(classes.is_empty());
}

#[test]
fn classes_are_split_and_distinct() {
    let mut attrs = AttrMap::new();
    attrs.insert("class".to_string(), "a b".to_string());
    let data = ElementData::new("div".to_string(), attrs);
    let classes = data.get_classes();
    assert_eq!(classes.len(), 2);
    assert!(classes.contains(&"a".to_string()));
    assert!(classes.contains(&"b".to_string()));
}

#[test]
fn classes_duplicates_are_dropped() {
    let mut attrs = AttrMap::new();
    attrs.insert("class".to_string(), "a b a".to_string());
    let data = ElementData::new("div".to_string(), attrs);
    let classes = data.get_classes();
    assert_eq!(classes, vec!["a".to_string(), "b".to_string()]);
}

#[test]
fn classes_keep_empty_tokens_from_double_spaces() {
    let mut attrs = AttrMap::new();
    attrs.insert("class".to_string(), "a  b".to_string());
    let data = ElementData::new("div".to_string(), attrs);
    let classes = data.get_classes();
    assert_eq!(
        classes,
        vec!["a".to_string(), "".to_string(), "b".to_string()]
    );
}

#[test]
fn id_attribute_is_exposed() {
    let mut attrs = AttrMap::new();
    attrs.insert("id".to_string(), "x".to_string());
    let with_id = ElementData::new("div".to_string(), attrs);
    assert_eq!(with_id.get_id(), Some("x".to_string()));
    let without_id = ElementData::new("div".to_string(), AttrMap::new());
    assert_eq!(without_id.get_id(), None);
}

#[test]
fn insert_replaces_value_in_place() {
    let mut attrs = AttrMap::new();
    attrs.insert("id".to_string(), "x".to_string());
    attrs.insert("id".to_string(), "y".to_string());
    assert_eq!(attrs.get(&"id".to_string()), Some("y".to_string()));
}

#[test]
fn sample_tree_renders_exactly() {
    let lines = add_node();
    assert_eq!(
        lines,
        vec![
            "root attr1=\"value1\" attr2=\"value2\"".to_string(),
            "  text_node1".to_string(),
            "  text_node2".to_string(),
        ]
    );
}

#[test]
fn sample_tree_has_expected_shape() {
    let root = create_node();
    assert_eq!(root.children.len(), 2);
    let printed = pretty_print(&root);
    assert_eq!(printed.len(), 3);
}

#[test]
fn one_line_per_node_on_a_nested_tree() {
    let leaf = Node::new(NodeType::Text("deep".to_string()), vec![]);
    let mid = Node::new(
        NodeType::Element(ElementData::new("p".to_string(), AttrMap::new())),
        vec![leaf],
    );
    let other = Node::new(NodeType::Comment("c".to_string()), vec![]);
    let root = Node::new(
        NodeType::Element(ElementData::new("body".to_string(), AttrMap::new())),
        vec![mid, other],
    );
    let lines = pretty_print(&root);
    assert_eq!(lines.len(), 4);
    assert_eq!(
        lines,
        vec![
            "body".to_string(),
            "  p".to_string(),
            "    deep".to_string(),
            "  <!--c-->".to_string(),
        ]
    );
}

#[test]
fn child_indent_is_parent_indent_plus_two() {
    let child = Node::new(NodeType::Text("inner".to_string()), vec![]);
    let root = Node::new(
        NodeType::Element(ElementData::new("div".to_string(), AttrMap::new())),
        vec![child],
    );
    let lines = pretty_print_with_indent(&root, 4);
    assert_eq!(lines[0], "    div".to_string());
    assert_eq!(lines[1], "      inner".to_string());
}
