use html_tree::dom::{AttrMap, Node, NodeType};
use html_tree::html_parser::{parse, ParseError};

fn parsed(source: &str) -> Node {
    parse(source.to_string()).unwrap()
}

fn failure(source: &str) -> ParseError {
    match parse(source.to_string()) {
        Ok(root) => panic!("parsed {:?} as {:?}", source, root),
        Err(error) => error,
    }
}

fn text_of(node: &Node) -> &str {
    match node.node_type() {
        NodeType::Text(data) => data.as_str(),
        other => panic!("not a text: {:?}", other),
    }
}

fn comment_of(node: &Node) -> &str {
    match node.node_type() {
        NodeType::Comment(data) => data.as_str(),
        other => panic!("not a comment: {:?}", other),
    }
}

fn name_of(node: &Node) -> &str {
    match node.node_type() {
        NodeType::Element(data) => data.tag_name.as_str(),
        other => panic!("not an element: {:?}", other),
    }
}

fn attributes_of(node: &Node) -> &AttrMap {
    match node.node_type() {
        NodeType::Element(data) => &data.attributes,
        other => panic!("not an element: {:?}", other),
    }
}

fn attribute<'a>(node: &'a Node, name: &str) -> Option<&'a str> {
    attributes_of(node).get(name).map(|value| value.as_str())
}

fn same_attributes(a: &AttrMap, b: &AttrMap) -> bool {
    a.len() == b.len()
        && a.entries().iter().all(|(name, value)| b.get(name.as_str()) == Some(value))
}

fn same_tree(a: &Node, b: &Node) -> bool {
    let same_kind = match (a.node_type(), b.node_type()) {
        (NodeType::Text(x), NodeType::Text(y)) => x == y,
        (NodeType::Comment(x), NodeType::Comment(y)) => x == y,
        (NodeType::Element(x), NodeType::Element(y)) => {
            x.tag_name == y.tag_name && same_attributes(&x.attributes, &y.attributes)
        }
        _ => false,
    };
    same_kind
        && a.children().len() == b.children().len()
        && a.children().iter().zip(b.children().iter()).all(|(x, y)| same_tree(x, y))
}

#[test]
fn single_root_is_returned_unwrapped() {
    let root = parsed("<a></a>");
    assert_eq!(name_of(&root), "a");
    assert_eq!(attributes_of(&root).len(), 0);
    assert_eq!(root.children().len(), 0);
}

#[test]
fn two_top_level_elements_are_wrapped_in_order() {
    let root = parsed("<a></a><b></b>");
    assert_eq!(name_of(&root), "html");
    assert_eq!(attributes_of(&root).len(), 0);
    assert_eq!(root.children().len(), 2);
    assert_eq!(name_of(&root.children()[0]), "a");
    assert_eq!(root.children()[0].children().len(), 0);
    assert_eq!(name_of(&root.children()[1]), "b");
    assert_eq!(root.children()[1].children().len(), 0);
}

#[test]
fn three_top_level_nodes_of_mixed_kinds_are_wrapped() {
    let root = parsed("one<!--two--><three></three>");
    assert_eq!(name_of(&root), "html");
    assert_eq!(root.children().len(), 3);
    assert_eq!(text_of(&root.children()[0]), "one");
    assert_eq!(comment_of(&root.children()[1]), "two");
    assert_eq!(name_of(&root.children()[2]), "three");
}

#[test]
fn single_top_level_text_is_the_root() {
    let root = parsed("just text");
    assert_eq!(text_of(&root), "just text");
    assert_eq!(root.children().len(), 0);
}

#[test]
fn self_closing_tag_is_malformed() {
    assert_eq!(failure("<a/></a>"), ParseError::MalformedMarkup);
    assert_eq!(failure("<br/>"), ParseError::MalformedMarkup);
}

#[test]
fn empty_input_gives_empty_wrapper() {
    let root = parsed("");
    assert_eq!(name_of(&root), "html");
    assert_eq!(attributes_of(&root).len(), 0);
    assert_eq!(root.children().len(), 0);
}

#[test]
fn whitespace_only_input_gives_empty_wrapper() {
    let root = parsed(" \t\r\n\u{a0}\u{3000} ");
    assert_eq!(name_of(&root), "html");
    assert_eq!(root.children().len(), 0);
}

#[test]
fn repeated_attribute_keeps_the_last_value() {
    let root = parsed("<a x=\"1\" x=\"2\"></a>");
    assert_eq!(name_of(&root), "a");
    assert_eq!(attributes_of(&root).len(), 1);
    assert_eq!(attribute(&root, "x"), Some("2"));
    assert_eq!(attributes_of(&root).entries().len(), 1);
    assert_eq!(attributes_of(&root).entries()[0], ("x".to_string(), "2".to_string()));
}

#[test]
fn repeated_attribute_between_others_keeps_the_last_value() {
    let root = parsed("<a x='1' y='2' x='3' z='4' y='5'></a>");
    assert_eq!(attributes_of(&root).len(), 3);
    assert_eq!(attribute(&root, "x"), Some("3"));
    assert_eq!(attribute(&root, "y"), Some("5"));
    assert_eq!(attribute(&root, "z"), Some("4"));
    assert_eq!(attribute(&root, "w"), None);
}

#[test]
fn comment_content_is_kept_verbatim() {
    let root = parsed("<!--hi there-->");
    assert_eq!(comment_of(&root), "hi there");
    assert_eq!(root.children().len(), 0);
}

#[test]
fn comment_keeps_whitespace_and_markup() {
    let root = parsed("<!--  <b>not a tag</b> - -- > \n-->");
    assert_eq!(comment_of(&root), "  <b>not a tag</b> - -- > \n");
}

#[test]
fn comment_ends_at_the_first_close() {
    let root = parsed("<!--a-->b-->");
    assert_eq!(name_of(&root), "html");
    assert_eq!(root.children().len(), 2);
    assert_eq!(comment_of(&root.children()[0]), "a");
    assert_eq!(text_of(&root.children()[1]), "b-->");
}

#[test]
fn empty_comment() {
    let root = parsed("<!---->");
    assert_eq!(comment_of(&root), "");
}

#[test]
fn comment_with_dashes_before_close() {
    let root = parsed("<!--a--->");
    assert_eq!(comment_of(&root), "a-");
}

#[test]
fn unclosed_comment_is_malformed() {
    assert_eq!(failure("<!--never closed"), ParseError::MalformedMarkup);
    assert_eq!(failure("<!--"), ParseError::MalformedMarkup);
    assert_eq!(failure("<!--a-"), ParseError::MalformedMarkup);
    assert_eq!(failure("<!--a--"), ParseError::MalformedMarkup);
    assert_eq!(failure("<!--a->"), ParseError::MalformedMarkup);
}

#[test]
fn incomplete_comment_open_is_malformed() {
    assert_eq!(failure("<!-x-->"), ParseError::MalformedMarkup);
    assert_eq!(failure("<!"), ParseError::MalformedMarkup);
}

#[test]
fn quote_style_does_not_matter() {
    let single = parsed("<a x='y'></a>");
    let double = parsed("<a x=\"y\"></a>");
    assert_eq!(attribute(&single, "x"), Some("y"));
    assert_eq!(attribute(&double, "x"), Some("y"));
    assert!(same_attributes(attributes_of(&single), attributes_of(&double)));
    assert!(same_tree(&single, &double));
}

#[test]
fn other_quote_may_stand_inside_a_value() {
    let root = parsed("<a x='say \"hi\"' y=\"it's\"></a>");
    assert_eq!(attribute(&root, "x"), Some("say \"hi\""));
    assert_eq!(attribute(&root, "y"), Some("it's"));
}

#[test]
fn mismatched_closing_tag_is_malformed() {
    assert_eq!(failure("<a></b>"), ParseError::MalformedMarkup);
    assert_eq!(failure("<a></A>"), ParseError::MalformedMarkup);
    assert_eq!(failure("<a></ab>"), ParseError::MalformedMarkup);
    assert_eq!(failure("<ab></a>"), ParseError::MalformedMarkup);
    assert_eq!(failure("<a><b></a></b>"), ParseError::MalformedMarkup);
}

#[test]
fn text_and_elements_interleave_in_order() {
    let root = parsed("<a>hello<b></b>world</a>");
    assert_eq!(name_of(&root), "a");
    assert_eq!(attributes_of(&root).len(), 0);
    assert_eq!(root.children().len(), 3);
    assert_eq!(text_of(&root.children()[0]), "hello");
    assert_eq!(name_of(&root.children()[1]), "b");
    assert_eq!(root.children()[1].children().len(), 0);
    assert_eq!(attributes_of(&root.children()[1]).len(), 0);
    assert_eq!(text_of(&root.children()[2]), "world");
}

#[test]
fn parsing_twice_gives_the_same_tree() {
    let sources = [
        "",
        "text",
        "<a></a>",
        "<a x='1' y=\"2\">t<!--c--><b z='3'>u</b></a><c></c>",
        "<a>hello<b></b>world</a>",
    ];
    for source in sources {
        let first = parsed(source);
        let second = parsed(source);
        assert!(same_tree(&first, &second));
        assert_eq!(format!("{:?}", first), format!("{:?}", second));
    }
    assert_eq!(failure("<a></b>"), failure("<a></b>"));
}

#[test]
fn different_documents_give_different_trees() {
    assert!(!same_tree(&parsed("<a></a>"), &parsed("<b></b>")));
    assert!(!same_tree(&parsed("<a x='1'></a>"), &parsed("<a x='2'></a>")));
    assert!(!same_tree(&parsed("<a>t</a>"), &parsed("<a>u</a>")));
    assert!(!same_tree(&parsed("t"), &parsed("<!--t-->")));
}

#[test]
fn leading_whitespace_is_skipped_and_trailing_whitespace_is_kept() {
    let root = parsed("<a>   hello world  \n</a>");
    assert_eq!(root.children().len(), 1);
    assert_eq!(text_of(&root.children()[0]), "hello world  \n");
}

#[test]
fn whitespace_between_elements_gives_no_node() {
    let root = parsed("  <a>\n  <b></b>\n  <c></c>\n</a>\n");
    assert_eq!(name_of(&root), "a");
    assert_eq!(root.children().len(), 2);
    assert_eq!(name_of(&root.children()[0]), "b");
    assert_eq!(name_of(&root.children()[1]), "c");
}

#[test]
fn nested_elements_keep_their_depth() {
    let root = parsed("<a><b><c><d>deep</d></c></b></a>");
    assert_eq!(name_of(&root), "a");
    let b = &root.children()[0];
    assert_eq!(name_of(b), "b");
    let c = &b.children()[0];
    assert_eq!(name_of(c), "c");
    let d = &c.children()[0];
    assert_eq!(name_of(d), "d");
    assert_eq!(d.children().len(), 1);
    assert_eq!(text_of(&d.children()[0]), "deep");
}

#[test]
fn deeply_nested_document() {
    let depth = 200;
    let mut source = String::new();
    for _ in 0..depth {
        source.push_str("<d>");
    }
    for _ in 0..depth {
        source.push_str("</d>");
    }
    let root = parsed(&source);
    let mut node = &root;
    let mut seen = 1;
    while node.children().len() == 1 {
        node = &node.children()[0];
        seen += 1;
    }
    assert_eq!(seen, depth);
    assert_eq!(node.children().len(), 0);
}

#[test]
fn whitespace_in_opening_tag() {
    let root = parsed("<a   x=\"1\"\n\ty='2'   ></a>");
    assert_eq!(name_of(&root), "a");
    assert_eq!(attributes_of(&root).len(), 2);
    assert_eq!(attribute(&root, "x"), Some("1"));
    assert_eq!(attribute(&root, "y"), Some("2"));
}

#[test]
fn attributes_without_whitespace_between() {
    let root = parsed("<a x='1'y='2'></a>");
    assert_eq!(attributes_of(&root).len(), 2);
    assert_eq!(attribute(&root, "x"), Some("1"));
    assert_eq!(attribute(&root, "y"), Some("2"));
}

#[test]
fn empty_attribute_value_and_empty_attribute_name() {
    let root = parsed("<a x=''></a>");
    assert_eq!(attribute(&root, "x"), Some(""));
    let root = parsed("<a ='v'></a>");
    assert_eq!(attributes_of(&root).len(), 1);
    assert_eq!(attribute(&root, ""), Some("v"));
}

#[test]
fn empty_tag_name() {
    let root = parsed("<></>");
    assert_eq!(name_of(&root), "");
    assert_eq!(root.children().len(), 0);
}

#[test]
fn names_are_letters_and_digits_only() {
    let root = parsed("<h1 data1='x'></h1>");
    assert_eq!(name_of(&root), "h1");
    assert_eq!(attribute(&root, "data1"), Some("x"));
    assert_eq!(failure("<my-tag></my-tag>"), ParseError::MalformedMarkup);
    assert_eq!(failure("<a data-x='1'></a>"), ParseError::MalformedMarkup);
    assert_eq!(failure("<a:b></a:b>"), ParseError::MalformedMarkup);
    assert_eq!(failure("<\u{e9}></\u{e9}>"), ParseError::MalformedMarkup);
}

#[test]
fn missing_tokens_are_malformed() {
    for source in [
        "<",
        "<a",
        "<a ",
        "<a>",
        "<a><",
        "<a></",
        "<a></a",
        "<a x",
        "<a x>",
        "<a x=",
        "<a x=>",
        "<a x=1></a>",
        "<a x='1",
        "<a x=\"1'></a>",
        "<a x = '1'></a>",
        "<a x='1'",
        "<a>text",
        "<a><b></b>",
        "<a></ a>",
        "<a></a >",
        "text<a>",
    ] {
        assert_eq!(failure(source), ParseError::MalformedMarkup, "{:?}", source);
    }
}

#[test]
fn top_level_stops_at_a_closing_tag() {
    let root = parsed("</a>");
    assert_eq!(name_of(&root), "html");
    assert_eq!(root.children().len(), 0);
    let root = parsed("<a></a></b>ignored");
    assert_eq!(name_of(&root), "a");
    let root = parsed("one</b><c>");
    assert_eq!(text_of(&root), "one");
}

#[test]
fn characters_of_several_bytes_are_single_characters() {
    let root = parsed("<a x='\u{e9}\u{4e16}\u{1f600}'>h\u{e9}llo \u{4e16}\u{754c}<!--\u{1f600}--></a>");
    assert_eq!(attribute(&root, "x"), Some("\u{e9}\u{4e16}\u{1f600}"));
    assert_eq!(root.children().len(), 2);
    assert_eq!(text_of(&root.children()[0]), "h\u{e9}llo \u{4e16}\u{754c}");
    assert_eq!(comment_of(&root.children()[1]), "\u{1f600}");
}

#[test]
fn document_that_ends_in_a_character_of_several_bytes() {
    let root = parsed("caf\u{e9}");
    assert_eq!(text_of(&root), "caf\u{e9}");
    let root = parsed("<!--\u{4e16}-->\u{1f600}");
    assert_eq!(root.children().len(), 2);
    assert_eq!(text_of(&root.children()[1]), "\u{1f600}");
    assert_eq!(failure("<!--\u{4e16}"), ParseError::MalformedMarkup);
    assert_eq!(failure("<a>\u{1f600}"), ParseError::MalformedMarkup);
}

#[test]
fn unicode_whitespace_is_skipped_before_nodes() {
    let root = parsed("\u{2003}<a>\u{a0}\u{2028}x\u{a0}</a>\u{3000}");
    assert_eq!(name_of(&root), "a");
    assert_eq!(root.children().len(), 1);
    assert_eq!(text_of(&root.children()[0]), "x\u{a0}");
}

#[test]
fn zero_width_space_is_text() {
    let root = parsed("<a>\u{200b}</a>");
    assert_eq!(root.children().len(), 1);
    assert_eq!(text_of(&root.children()[0]), "\u{200b}");
}

#[test]
fn error_has_a_message() {
    assert_eq!(failure("<a></b>").message(), "malformed markup");
    assert_eq!(ParseError::MalformedMarkup.message(), "malformed markup");
}
