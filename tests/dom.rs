use html_dom::attributes::AttrMap;
use html_dom::dom::{with_indent, Node};

#[test]
fn test_with_0_indent() {
    let res = with_indent(0, "test".to_string());
    assert_eq!(res, "test".to_string());
}

#[test]
fn test_with_3_indent() {
    let res = with_indent(3, "test".to_string());
    assert_eq!(res, "      test".to_string());
}

#[test]
fn test_display() {
    let node = Node::new_elem("p".to_string(), AttrMap::new(), vec![]);
    assert_eq!(node.to_string(), "<p></p>");
}

#[test]
fn test_display_simple_nest() {
    let inner_node = Node::new_elem("span".to_string(), AttrMap::new(), vec![]);
    let outer_node = Node::new_elem("p".to_string(), AttrMap::new(), vec![inner_node]);
    assert_eq!(outer_node.to_string(), "<p>\n  <span></span>\n</p>");
}

#[test]
fn test_display_basic() {
    let mut attributes = AttrMap::new();
    attributes.insert("width".to_string(), "100%".to_string());
    let inner_node = Node::new_text("Lorem Ipsum...".to_string());
    let top_node = Node::new_elem("p".to_string(), attributes, vec![inner_node]);
    assert_eq!(
        top_node.to_string(),
        "<p width=\"100%\">\n  Lorem Ipsum...\n</p>"
    );
}

#[test]
fn test_display_tree() {
    let inner_nodes: Vec<Node> = (0..3)
        .map(|i| {
            let text_node = Node::new_text((i + 1).to_string());
            let mut attrs = AttrMap::new();
            attrs.insert("align".to_string(), "left".to_string());
            Node::new_elem("li".to_string(), attrs, vec![text_node])
        })
        .collect();

    let middle_node = Node::new_elem("ul".to_string(), AttrMap::new(), inner_nodes);

    let mut outer_attrs = AttrMap::new();
    outer_attrs.insert("width".to_string(), "100%".to_string());
    outer_attrs.insert("onclick".to_string(), "func".to_string());

    let outer_node = Node::new_elem("div".to_string(), outer_attrs, vec![middle_node]);

    assert_eq!(
        outer_node.to_string(),
        "<div onclick=\"func\" width=\"100%\">\n  <ul>\n    <li align=\"left\">\n      1\n    </li>\n    <li align=\"left\">\n      2\n    </li>\n    <li align=\"left\">\n      3\n    </li>\n  </ul>\n</div>"
    );
}

#[test]
fn attribute_order_does_not_depend_on_insertion() {
    let mut first = AttrMap::new();
    first.insert("onclick".to_string(), "func".to_string());
    first.insert("width".to_string(), "100%".to_string());
    let mut second = AttrMap::new();
    second.insert("width".to_string(), "100%".to_string());
    second.insert("onclick".to_string(), "func".to_string());
    let a = Node::new_elem("div".to_string(), first, vec![]);
    let b = Node::new_elem("div".to_string(), second, vec![]);
    let expected = "<div onclick=\"func\" width=\"100%\"></div>";
    assert_eq!(a.to_string(), expected);
    assert_eq!(b.to_string(), expected);
    assert_eq!(a.to_string(), a.to_string());
}

#[test]
fn attributes_sort_by_code_point() {
    let mut attrs = AttrMap::new();
    attrs.insert("b".to_string(), "2".to_string());
    attrs.insert("ab".to_string(), "3".to_string());
    attrs.insert("a".to_string(), "1".to_string());
    attrs.insert("Z".to_string(), "0".to_string());
    let node = Node::new_elem("x".to_string(), attrs, vec![]);
    assert_eq!(node.to_string(), "<x Z=\"0\" a=\"1\" ab=\"3\" b=\"2\"></x>");
}

#[test]
fn attrs_render_alone() {
    let mut attrs = AttrMap::new();
    assert_eq!(attrs.render(), "");
    attrs.insert("k".to_string(), "v".to_string());
    assert_eq!(attrs.render(), " k=\"v\"");
}

#[test]
fn insert_replaces_and_returns_previous_value() {
    let mut attrs = AttrMap::new();
    assert_eq!(attrs.insert("id".to_string(), "one".to_string()), None);
    assert_eq!(
        attrs.insert("id".to_string(), "two".to_string()),
        Some("one".to_string())
    );
    let node = Node::new_elem("p".to_string(), attrs, vec![]);
    assert_eq!(node.to_string(), "<p id=\"two\"></p>");
}

#[test]
fn text_is_written_verbatim_with_indent() {
    let text = Node::new_text("<b> & \"q\"".to_string());
    assert_eq!(text.p_tree(2), "    <b> & \"q\"");
    assert_eq!(text.to_string(), "<b> & \"q\"");
}

#[test]
fn element_rendered_at_a_deeper_level() {
    let leaf = Node::new_elem("i".to_string(), AttrMap::new(), vec![]);
    let node = Node::new_elem("b".to_string(), AttrMap::new(), vec![leaf]);
    assert_eq!(node.p_tree(1), "  <b>\n    <i></i>\n  </b>");
}

#[test]
fn empty_tag_renders_without_panicking() {
    let node = Node::new_elem(String::new(), AttrMap::new(), vec![]);
    assert_eq!(node.to_string(), "<></>");
}

#[test]
fn children_keep_their_order() {
    let kids = vec![
        Node::new_text("z".to_string()),
        Node::new_text("a".to_string()),
        Node::new_elem("m".to_string(), AttrMap::new(), vec![]),
    ];
    let node = Node::new_elem("p".to_string(), AttrMap::new(), kids);
    assert_eq!(node.to_string(), "<p>\n  z\n  a\n  <m></m>\n</p>");
}

#[test]
fn attribute_lookup_and_count() {
    let mut attrs = AttrMap::new();
    assert_eq!(attrs.len(), 0);
    assert_eq!(attrs.get("width"), None);
    attrs.insert("width".to_string(), "100%".to_string());
    attrs.insert("onclick".to_string(), "func".to_string());
    attrs.insert("width".to_string(), "50%".to_string());
    assert_eq!(attrs.len(), 2);
    assert_eq!(attrs.get("width"), Some(&"50%".to_string()));
    assert_eq!(attrs.get("onclick"), Some(&"func".to_string()));
    assert_eq!(attrs.get("on"), None);
}
