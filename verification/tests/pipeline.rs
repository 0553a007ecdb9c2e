use bluejay::dom::{elem, text, AttrMap, Node, NodeType};
use bluejay::layout::{build_layout_tree, BoxType};
use bluejay::parser::{Color, Decimal, Parser, Unit, Value};
use bluejay::styler::{style_tree, Display};

fn parse_doc(s: &str) -> Node {
    Parser::parse(s.to_string()).expect("markup should parse")
}

fn parse_sheet(s: &str) -> bluejay::parser::Stylesheet {
    Parser::parse_css(s.to_string()).expect("stylesheet should parse")
}

#[test]
fn parse_single_element_tree() {
    let root = parse_doc("<div class=\"a\"><p>hi</p></div>");
    match &root.node_type {
        NodeType::Element(e) => {
            assert_eq!(e.tag_name, "div");
            assert_eq!(e.attrs.get("class").unwrap(), "a");
        }
        _ => panic!("root should be an element"),
    }
    assert_eq!(root.children.len(), 1);
    match &root.children[0].node_type {
        NodeType::Element(e) => assert_eq!(e.tag_name, "p"),
        _ => panic!("child should be an element"),
    }
    match &root.children[0].children[0].node_type {
        NodeType::Text(s) => assert_eq!(s, "hi"),
        _ => panic!("grandchild should be text"),
    }
}

#[test]
fn parse_text_only_document() {
    let root = parse_doc("hello");
    match &root.node_type {
        NodeType::Text(s) => assert_eq!(s, "hello"),
        _ => panic!("root should be text"),
    }
}

#[test]
fn parse_wraps_multiple_roots_in_html() {
    let root = parse_doc("<a></a><b></b>");
    match &root.node_type {
        NodeType::Element(e) => assert_eq!(e.tag_name, "html"),
        _ => panic!("root should be the synthetic html element"),
    }
    assert_eq!(root.children.len(), 2);
}

#[test]
fn mismatched_closing_tag_fails() {
    let r = Parser::parse("<a>x</b>".to_string());
    let e = r.err().expect("mismatched closing tag must fail");
    assert_eq!(e.expected, "a");
}

#[test]
fn unterminated_attribute_value_fails() {
    assert!(Parser::parse("<a href=\"x></a>".to_string()).is_err());
}

#[test]
fn attribute_missing_equals_fails() {
    let e = Parser::parse("<a href'x'></a>".to_string()).err().unwrap();
    assert_eq!(e.expected, "=");
}

#[test]
fn trailing_input_after_root_fails() {
    let e = Parser::parse("<a></a></b>".to_string()).err().unwrap();
    assert_eq!(e.expected, "end of input");
}

#[test]
fn repeated_attribute_keeps_last_value() {
    let root = parse_doc("<div a=\"1\" a=\"2\"></div>");
    match &root.node_type {
        NodeType::Element(e) => {
            assert_eq!(e.attrs.get("a").unwrap(), "2");
        }
        _ => panic!("root should be an element"),
    }
}

#[test]
fn classes_empty_without_class_attribute() {
    let root = parse_doc("<div></div>");
    match &root.node_type {
        NodeType::Element(e) => assert!(e.classes().is_empty()),
        _ => panic!("root should be an element"),
    }
}

#[test]
fn classes_split_on_space_runs() {
    let root = parse_doc("<div class=\"a  b\"></div>");
    match &root.node_type {
        NodeType::Element(e) => {
            let mut cls = e.classes();
            cls.sort();
            assert_eq!(cls, vec!["a".to_string(), "b".to_string()]);
        }
        _ => panic!("root should be an element"),
    }
}

#[test]
fn classes_listed_once_each() {
    let root = parse_doc("<div class=\"a b a\"></div>");
    match &root.node_type {
        NodeType::Element(e) => {
            let mut cls = e.classes();
            cls.sort();
            assert_eq!(cls, vec!["a".to_string(), "b".to_string()]);
        }
        _ => panic!("root should be an element"),
    }
}

#[test]
fn id_accessor_reads_id_attribute() {
    let root = parse_doc("<div id=\"x\"></div>");
    match &root.node_type {
        NodeType::Element(e) => {
            assert_eq!(e.id().unwrap(), "x");
        }
        _ => panic!("root should be an element"),
    }
}

fn single_specificity(css: &str) -> (usize, usize, usize) {
    let sheet = parse_sheet(css);
    sheet.rules[0].selectors[0].specificity()
}

#[test]
fn specificity_ranks_id_class_tag() {
    let id = single_specificity("#id { a: b; }");
    let classes = single_specificity(".c1.c2 { a: b; }");
    let tag = single_specificity("p { a: b; }");
    assert_eq!(id, (1, 0, 0));
    assert_eq!(classes, (0, 2, 0));
    assert_eq!(tag, (0, 0, 1));
    assert!(id > classes);
    assert!(classes > tag);
}

#[test]
fn selector_list_sorted_most_specific_first() {
    let sheet = parse_sheet("p, #id, .c { a: b; }");
    let sp: Vec<(usize, usize, usize)> =
        sheet.rules[0].selectors.iter().map(|s| s.specificity()).collect();
    assert_eq!(sp, vec![(1, 0, 0), (0, 1, 0), (0, 0, 1)]);
}

#[test]
fn later_rule_wins_among_equal_specificity() {
    let root = parse_doc("<p></p>");
    let sheet = parse_sheet("p { color: red; } p { color: blue; }");
    let styled = style_tree(&root, &sheet);
    match styled.value("color").unwrap() {
        Value::Keyword(s) => assert_eq!(s, "blue"),
        _ => panic!("color should be a keyword"),
    }
}

#[test]
fn higher_specificity_wins_regardless_of_order() {
    let root = parse_doc("<p class=\"x\"></p>");
    let sheet = parse_sheet(".x { color: blue; } p { color: red; }");
    let styled = style_tree(&root, &sheet);
    match styled.value("color").unwrap() {
        Value::Keyword(s) => assert_eq!(s, "blue"),
        _ => panic!("color should be a keyword"),
    }
}

#[test]
fn resolving_twice_gives_identical_mappings() {
    let root = parse_doc("<div class=\"a\"><p>hi</p></div>");
    let sheet = parse_sheet("div { display: block; } .a { margin: 1px; }");
    let s1 = style_tree(&root, &sheet);
    let s2 = style_tree(&root, &sheet);
    for key in ["display", "margin", "color"] {
        match (s1.value(key), s2.value(key)) {
            (None, None) => {}
            (Some(Value::Keyword(a)), Some(Value::Keyword(b))) => assert_eq!(a, b),
            (Some(Value::Length(a, _)), Some(Value::Length(b, _))) => assert_eq!(a, b),
            _ => panic!("mappings differ for {key}"),
        }
    }
    assert_eq!(s1.display(), s2.display());
}

#[test]
fn unmatched_element_defaults_to_inline() {
    let root = parse_doc("<span></span>");
    let sheet = parse_sheet("");
    let styled = style_tree(&root, &sheet);
    assert_eq!(styled.display(), Display::Inline);
}

#[test]
fn selector_list_bad_character_fails() {
    assert!(Parser::parse_css("p & q { a: b; }".to_string()).is_err());
}

#[test]
fn missing_colon_fails() {
    assert!(Parser::parse_css("p { color red; }".to_string()).is_err());
}

#[test]
fn missing_semicolon_fails() {
    assert!(Parser::parse_css("p { color: red }".to_string()).is_err());
}

#[test]
fn parse_declaration_reads_one_declaration() {
    let mut p = Parser::new("color: red;".to_string());
    let d = p.parse_declaration().expect("declaration should parse");
    assert_eq!(d.name, "color");
    match d.value {
        Value::Keyword(s) => assert_eq!(s, "red"),
        _ => panic!("value should be a keyword"),
    }
}

#[test]
fn color_parses_hex_pairs() {
    let sheet = parse_sheet("p { background: #1A2b3C; }");
    match sheet.rules[0].declarations[0].value {
        Value::ColorValue(Color { r, g, b, a }) => {
            assert_eq!((r, g, b, a), (0x1A, 0x2B, 0x3C, 255));
        }
        _ => panic!("value should be a color"),
    }
}

#[test]
fn short_color_literal_fails() {
    assert!(Parser::parse_css("p { background: #1A2b3; }".to_string()).is_err());
}

#[test]
fn non_hex_color_literal_fails() {
    assert!(Parser::parse_css("p { background: #zzzzzz; }".to_string()).is_err());
}

#[test]
fn length_parses_to_exact_decimal() {
    let sheet = parse_sheet("p { margin: 12.5px; }");
    match sheet.rules[0].declarations[0].value {
        Value::Length(d, Unit::Px) => {
            assert_eq!(d, Decimal { mantissa: 125, scale: 1 });
        }
        _ => panic!("value should be a length"),
    }
}

#[test]
fn unknown_unit_fails() {
    let e = Parser::parse_css("p { margin: 12em; }".to_string()).err().unwrap();
    assert_eq!(e.reason, "unrecognized unit");
}

#[test]
fn to_px_of_non_length_is_zero() {
    let v = Value::Keyword("auto".to_string());
    assert_eq!(v.to_px(), Decimal { mantissa: 0, scale: 0 });
    let l = Value::Length(Decimal { mantissa: 125, scale: 1 }, Unit::Px);
    assert_eq!(l.to_px(), Decimal { mantissa: 125, scale: 1 });
}

#[test]
fn constructors_build_expected_nodes() {
    let mut attrs = AttrMap::new();
    attrs.insert("id".to_string(), "x".to_string());
    let n = elem("div".to_string(), attrs, vec![text("hi".to_string())]);
    match &n.node_type {
        NodeType::Element(e) => {
            assert_eq!(e.tag_name, "div");
            assert_eq!(e.id().unwrap(), "x");
        }
        _ => panic!("should be an element"),
    }
    assert_eq!(n.children.len(), 1);
}

#[test]
fn inline_runs_group_into_separate_anonymous_blocks() {
    let root = parse_doc("<div><a></a><b></b><c></c><d></d><e></e></div>");
    let sheet = parse_sheet(
        "div { display: block; } a { display: block; } d { display: block; }",
    );
    let styled = style_tree(&root, &sheet);
    let tree = build_layout_tree(&styled).expect("root displays as block");
    assert!(matches!(tree.box_type, BoxType::BlockNode(..)));
    assert_eq!(tree.children.len(), 4);
    assert!(matches!(tree.children[0].box_type, BoxType::BlockNode(..)));
    assert!(matches!(tree.children[1].box_type, BoxType::AnonymousBlock));
    assert_eq!(tree.children[1].children.len(), 2);
    assert!(matches!(tree.children[2].box_type, BoxType::BlockNode(..)));
    assert!(matches!(tree.children[3].box_type, BoxType::AnonymousBlock));
    assert_eq!(tree.children[3].children.len(), 1);
}

#[test]
fn none_display_children_are_elided() {
    let root = parse_doc("<div><a></a><b></b><c></c></div>");
    let sheet = parse_sheet(
        "div { display: block; } a { display: block; } b { display: none; } c { display: block; }",
    );
    let styled = style_tree(&root, &sheet);
    let tree = build_layout_tree(&styled).expect("root displays as block");
    assert_eq!(tree.children.len(), 2);
    assert!(matches!(tree.children[0].box_type, BoxType::BlockNode(..)));
    assert!(matches!(tree.children[1].box_type, BoxType::BlockNode(..)));
}

#[test]
fn none_display_root_is_an_error() {
    let root = parse_doc("<div></div>");
    let sheet = parse_sheet("div { display: none; }");
    let styled = style_tree(&root, &sheet);
    assert!(build_layout_tree(&styled).is_err());
}

#[test]
fn end_to_end_div_with_inline_p() {
    let root = parse_doc("<div class=\"a\"><p>hi</p></div>");
    let sheet = parse_sheet("div { display: block; } p { display: inline; }");
    let styled = style_tree(&root, &sheet);
    let tree = build_layout_tree(&styled).expect("root displays as block");
    match &tree.box_type {
        BoxType::BlockNode(NodeType::Element(e), _) => assert_eq!(e.tag_name, "div"),
        _ => panic!("root box should be the div block"),
    }
    assert_eq!(tree.children.len(), 1);
    assert!(matches!(tree.children[0].box_type, BoxType::AnonymousBlock));
    assert_eq!(tree.children[0].children.len(), 1);
    let p_box = &tree.children[0].children[0];
    match &p_box.box_type {
        BoxType::InlineNode(NodeType::Element(e), _) => assert_eq!(e.tag_name, "p"),
        _ => panic!("the anonymous block should hold the inline p"),
    }
    // The text run inside `p` is itself inline content and becomes an
    // inline box directly under the `p` box.
    assert_eq!(p_box.children.len(), 1);
    match &p_box.children[0].box_type {
        BoxType::InlineNode(NodeType::Text(s), _) => assert_eq!(s, "hi"),
        _ => panic!("the p box should hold its text run"),
    }
}

#[test]
fn geometry_starts_zeroed() {
    let root = parse_doc("<div></div>");
    let sheet = parse_sheet("div { display: block; }");
    let styled = style_tree(&root, &sheet);
    let tree = build_layout_tree(&styled).unwrap();
    assert_eq!(tree.dimensions.content.width, Decimal { mantissa: 0, scale: 0 });
    assert_eq!(tree.dimensions.margin.left, Decimal { mantissa: 0, scale: 0 });
}

#[test]
fn empty_input_gives_empty_html_root() {
    let root = parse_doc("");
    match &root.node_type {
        NodeType::Element(e) => assert_eq!(e.tag_name, "html"),
        _ => panic!("root should be the synthetic html element"),
    }
    assert_eq!(root.children.len(), 0);
}

#[test]
fn universal_selector_matches_everything() {
    let root = parse_doc("<span></span>");
    let sheet = parse_sheet("* { color: red; }");
    let styled = style_tree(&root, &sheet);
    match styled.value("color").unwrap() {
        Value::Keyword(s) => assert_eq!(s, "red"),
        _ => panic!("color should be a keyword"),
    }
}

#[test]
fn mismatched_closing_tag_reports_offset() {
    // `<a>x</b>`: the closing name is expected right after `</`.
    let e = Parser::parse("<a>x</b>".to_string()).err().unwrap();
    assert_eq!(e.offset, 6);
    assert_eq!(e.expected, "a");
}

#[test]
fn unknown_unit_reports_offset() {
    // `p { margin: 12em; }`: the unit identifier starts at offset 14.
    let e = Parser::parse_css("p { margin: 12em; }".to_string()).err().unwrap();
    assert_eq!(e.offset, 14);
}

#[test]
fn cursor_helpers_walk_the_input() {
    let mut p = Parser::new("abc".to_string());
    assert!(p.starts_with("ab"));
    assert!(!p.starts_with("bc"));
    p.expect("ab").unwrap();
    assert!(!p.eof());
    assert_eq!(p.next_char(), 'c');
    assert_eq!(p.consume_char(), 'c');
    assert!(p.eof());
}

#[test]
fn hex_pair_reads_two_digits() {
    let mut p = Parser::new("fF".to_string());
    assert_eq!(p.parse_hex_pair().unwrap(), 0xFF);
    let mut q = Parser::new("f".to_string());
    assert!(q.parse_hex_pair().is_err());
}

#[test]
fn comment_constructor_is_distinct_from_text() {
    let c = bluejay::dom::comm("note".to_string());
    assert!(matches!(c.node_type, NodeType::Comment(_)));
}
