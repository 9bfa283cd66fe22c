use boxflow::css_parser::{CSSParser, Selector, Unit, Value};
use boxflow::dom::NodeType;
use boxflow::layout::{build_layout_tree, layout, Dimensions};
use boxflow::parser::Parser;
use boxflow::style::style_tree;
use boxflow::PipelineError;

#[test]
fn css_parses_tag_and_class_rules() {
    let sheet = CSSParser::parse("div { color: red; } .a { color: blue; }").unwrap();
    assert_eq!(sheet.rules.len(), 2);
    assert_eq!(sheet.rules[0].selectors.len(), 1);
    let Selector::Simple(s0) = &sheet.rules[0].selectors[0];
    assert_eq!(s0.tag_name.as_deref(), Some("div"));
    assert!(s0.id.is_none());
    assert!(s0.class.is_empty());
    let Selector::Simple(s1) = &sheet.rules[1].selectors[0];
    assert!(s1.tag_name.is_none());
    assert_eq!(s1.class, vec!["a".to_string()]);
    let d = &sheet.rules[0].declarations[0];
    assert_eq!(d.name, "color");
    match &d.value {
        Value::Keyword(k) => assert_eq!(k, "red"),
        other => panic!("expected a keyword, got {:?}", other),
    }
}

#[test]
fn css_parses_compound_selector_and_lists() {
    let sheet = CSSParser::parse("div#main.big.wide, p { margin: 4px; }").unwrap();
    assert_eq!(sheet.rules.len(), 1);
    let rule = &sheet.rules[0];
    assert_eq!(rule.selectors.len(), 2);
    let Selector::Simple(first) = &rule.selectors[0];
    assert_eq!(first.tag_name.as_deref(), Some("div"));
    assert_eq!(first.id.as_deref(), Some("main"));
    assert_eq!(first.class, vec!["big".to_string(), "wide".to_string()]);
    let Selector::Simple(second) = &rule.selectors[1];
    assert_eq!(second.tag_name.as_deref(), Some("p"));
    assert_eq!(first.tag_name.as_deref(), Some("div"));
}

#[test]
fn css_parses_universal_selector() {
    let sheet = CSSParser::parse("* { display: block; }").unwrap();
    let Selector::Simple(s) = &sheet.rules[0].selectors[0];
    assert!(s.tag_name.is_none() && s.id.is_none() && s.class.is_empty());
}

#[test]
fn css_parses_pixel_lengths_case_insensitively() {
    let sheet = CSSParser::parse("p { width: 120px; height: 4PX; }").unwrap();
    let ds = &sheet.rules[0].declarations;
    assert!(matches!(ds[0].value, Value::Length(120, Unit::Px)));
    assert!(matches!(ds[1].value, Value::Length(4, Unit::Px)));
}

#[test]
fn css_parses_hex_colors() {
    let sheet = CSSParser::parse("p { color: #a01B2c; }").unwrap();
    match &sheet.rules[0].declarations[0].value {
        Value::ColorValue(c) => {
            assert_eq!((c.r, c.g, c.b, c.a), (0xa0, 0x1b, 0x2c, 255));
        },
        other => panic!("expected a color, got {:?}", other),
    }
}

#[test]
fn css_rejects_unknown_units() {
    assert!(matches!(
        CSSParser::parse("p { width: 10em; }"),
        Err(PipelineError::MalformedStylesheet)
    ));
}

#[test]
fn css_rejects_fractional_lengths() {
    assert!(matches!(
        CSSParser::parse("p { width: 1.5px; }"),
        Err(PipelineError::MalformedStylesheet)
    ));
}

#[test]
fn css_rejects_oversized_lengths() {
    assert!(matches!(
        CSSParser::parse("p { width: 99999999999px; }"),
        Err(PipelineError::MalformedStylesheet)
    ));
}

#[test]
fn css_rejects_truncated_input() {
    assert!(matches!(
        CSSParser::parse("p { color: red;"),
        Err(PipelineError::MalformedStylesheet)
    ));
    assert!(matches!(
        CSSParser::parse("p { color red; }"),
        Err(PipelineError::MalformedStylesheet)
    ));
    assert!(matches!(
        CSSParser::parse("p { color: #12345; }"),
        Err(PipelineError::MalformedStylesheet)
    ));
}

#[test]
fn css_accepts_loose_whitespace() {
    let sheet = CSSParser::parse("  div ,  p  { margin : 4px ; }\n").unwrap();
    assert_eq!(sheet.rules[0].selectors.len(), 2);
    assert_eq!(sheet.rules[0].declarations.len(), 1);
}

#[test]
fn html_parses_nested_elements_and_attributes() {
    let doc = Parser::parse("<div id=\"main\" class='a b'><p>hello</p></div>".to_string()).unwrap();
    match &doc.node_type {
        NodeType::Element(e) => {
            assert_eq!(e.tag_name, "div");
            assert_eq!(e.id().map(|s| s.as_str()), Some("main"));
            let classes = e.classes();
            let classes: Vec<&str> = classes.iter().map(|s| s.as_str()).collect();
            assert_eq!(classes, vec!["a", "b"]);
        },
        other => panic!("expected an element, got {:?}", other),
    }
    assert_eq!(doc.children.len(), 1);
    match &doc.children[0].children[0].node_type {
        NodeType::Text(t) => assert_eq!(t, "hello"),
        other => panic!("expected text, got {:?}", other),
    }
}

#[test]
fn html_wraps_multiple_roots() {
    let doc = Parser::parse("<p>a</p><p>b</p>".to_string()).unwrap();
    match &doc.node_type {
        NodeType::Element(e) => assert_eq!(e.tag_name, "html"),
        other => panic!("expected an element, got {:?}", other),
    }
    assert_eq!(doc.children.len(), 2);
}

#[test]
fn html_rejects_mismatched_closing_tags() {
    assert!(matches!(
        Parser::parse("<div></span>".to_string()),
        Err(PipelineError::MalformedDocument)
    ));
}

#[test]
fn html_rejects_unquoted_attributes() {
    assert!(matches!(
        Parser::parse("<div id=main></div>".to_string()),
        Err(PipelineError::MalformedDocument)
    ));
}

#[test]
fn pipeline_end_to_end() {
    let doc = Parser::parse(
        "<div class='outer'><p></p><p class='tall'></p></div>".to_string(),
    )
    .unwrap();
    let sheet = CSSParser::parse(
        "div { display: block; width: 600px; margin-left: auto; margin-right: auto; } \
         p { display: block; height: 40px; } \
         .tall { height: 90px; }",
    )
    .unwrap();
    sheet.validate().unwrap();
    let styled = style_tree(&doc, &sheet);
    let tree = build_layout_tree(styled).unwrap();
    let mut viewport = Dimensions::default();
    viewport.content.width = 800;
    let laid = layout(tree, &viewport);
    // The outer block centers: (800 - 600) / 2 on each side.
    assert_eq!(laid.dimensions.content.width, 600);
    assert_eq!(laid.dimensions.margin.left, 100);
    assert_eq!(laid.dimensions.margin.right, 100);
    assert_eq!(laid.dimensions.content.x, 100);
    // The paragraphs stack: 40 then 90, and the parent sums them.
    assert_eq!(laid.children.len(), 2);
    assert_eq!(laid.children[0].dimensions.content.y, 0);
    assert_eq!(laid.children[0].dimensions.content.height, 40);
    assert_eq!(laid.children[1].dimensions.content.y, 40);
    assert_eq!(laid.children[1].dimensions.content.height, 90);
    assert_eq!(laid.dimensions.content.height, 130);
    // The paragraphs fill the parent's content width.
    assert_eq!(laid.children[0].dimensions.content.width, 600);
}
