use boxflow::css_parser::{Color, Declaration, Rule, Selector, SimpleSelector, StyleSheet, Unit, Value};
use boxflow::dom::{AttributeMap, ElementData, Node};
use boxflow::layout::{build_layout_tree, layout, BoxType, Dimensions, LayoutBox};
use boxflow::style::{specified_values, style_tree, Display, StyledNode};
use boxflow::strmap::StrMap;
use boxflow::PipelineError;

fn kw(s: &str) -> Value {
    Value::Keyword(s.to_string())
}

fn px(n: i64) -> Value {
    Value::Length(n, Unit::Px)
}

fn simple(tag: Option<&str>, id: Option<&str>, classes: &[&str]) -> Selector {
    Selector::Simple(SimpleSelector {
        tag_name: tag.map(|s| s.to_string()),
        id: id.map(|s| s.to_string()),
        class: classes.iter().map(|s| s.to_string()).collect(),
    })
}

fn rule(selectors: Vec<Selector>, declarations: Vec<(&str, Value)>) -> Rule {
    Rule {
        selectors,
        declarations: declarations
            .into_iter()
            .map(|(name, value)| Declaration { name: name.to_string(), value })
            .collect(),
    }
}

fn element(tag: &str, attrs: &[(&str, &str)]) -> ElementData {
    let mut attributes = AttributeMap::new();
    for (k, v) in attrs {
        attributes.insert(k.to_string(), v.to_string());
    }
    ElementData { tag_name: tag.to_string(), attributes }
}

fn element_node(tag: &str, attrs: &[(&str, &str)], children: Vec<Node>) -> Node {
    let mut attributes = AttributeMap::new();
    for (k, v) in attrs {
        attributes.insert(k.to_string(), v.to_string());
    }
    Node::new_by_element(tag.to_string(), attributes, children)
}

fn styled(props: &[(&str, Value)], children: Vec<StyledNode>) -> StyledNode {
    let mut map = StrMap::new();
    for (k, v) in props {
        map.insert(k.to_string(), v.clone());
    }
    StyledNode { specified_values: map, children }
}

fn viewport(width: i64) -> Dimensions {
    let mut d = Dimensions::default();
    d.content.width = width;
    d
}

#[test]
fn specificity_counts_id_class_tag() {
    let s = simple(Some("div"), Some("main"), &["a", "b"]);
    assert_eq!(s.specificity(), (1, 2, 1));
    let t = simple(None, None, &[]);
    assert_eq!(t.specificity(), (0, 0, 0));
}

#[test]
fn specificity_id_beats_many_classes_and_tags() {
    // (1, 0, 0) must outrank (0, 9, 9) lexicographically.
    let with_id = simple(None, Some("x"), &[]);
    let with_classes = simple(Some("p"), None, &[
        "c1", "c2", "c3", "c4", "c5", "c6", "c7", "c8", "c9",
    ]);
    let a = with_id.specificity();
    let b = with_classes.specificity();
    assert!(boxflow::css_parser::specificity_lt(&b, &a));
    assert!(!boxflow::css_parser::specificity_lt(&a, &b));
}

#[test]
fn to_px_reads_lengths_only() {
    assert_eq!(px(12).to_px(), 12);
    assert_eq!(kw("auto").to_px(), 0);
    assert_eq!(
        Value::ColorValue(Color { r: 1, g: 2, b: 3, a: 255 }).to_px(),
        0
    );
}

#[test]
fn matching_tag_and_class() {
    let e = element("div", &[("class", "a b")]);
    assert!(boxflow::style::matches(&e, &simple(Some("div"), None, &[])));
    assert!(!boxflow::style::matches(&e, &simple(Some("p"), None, &[])));
    assert!(boxflow::style::matches(&e, &simple(None, None, &["b"])));
    assert!(boxflow::style::matches(&e, &simple(None, None, &["zz", "a"])));
    assert!(!boxflow::style::matches(&e, &simple(None, None, &["zz"])));
    // No constraints at all: the universal selector matches.
    assert!(boxflow::style::matches(&e, &simple(None, None, &[])));
}

#[test]
fn matching_correctness_id_and_class_must_both_hold() {
    // `#main.big` must not match an element with id `main` and no class
    // `big`, nor one with class `big` and a different id.
    let sel = simple(None, Some("main"), &["big"]);
    let id_only = element("div", &[("id", "main")]);
    assert!(!boxflow::style::matches(&id_only, &sel));
    let wrong_id = element("div", &[("id", "other"), ("class", "big")]);
    assert!(!boxflow::style::matches(&wrong_id, &sel));
    let both = element("div", &[("id", "main"), ("class", "big small")]);
    assert!(boxflow::style::matches(&both, &sel));
}

#[test]
fn classes_split_on_spaces() {
    let e = element("div", &[("class", "a b  c")]);
    let toks = e.classes();
    let toks: Vec<&str> = toks.iter().map(|s| s.as_str()).collect();
    // A double space yields an empty token, as the attribute text reads.
    assert_eq!(toks, vec!["a", "b", "", "c"]);
}

#[test]
fn cascade_class_beats_tag() {
    // div { color: red; }  .a { color: blue; }  applied to <div class="a">:
    // the class selector's specificity (0,1,0) beats the tag's (0,0,1).
    let sheet = StyleSheet {
        rules: vec![
            rule(vec![simple(Some("div"), None, &[])], vec![("color", kw("red"))]),
            rule(vec![simple(None, None, &["a"])], vec![("color", kw("blue"))]),
        ],
    };
    let e = element("div", &[("class", "a")]);
    let props = specified_values(&e, &sheet);
    match props.get("color") {
        Some(Value::Keyword(c)) => assert_eq!(c.as_str(), "blue"),
        other => panic!("expected blue keyword, got {:?}", other),
    }
}

#[test]
fn cascade_class_beats_tag_regardless_of_order() {
    let sheet = StyleSheet {
        rules: vec![
            rule(vec![simple(None, None, &["a"])], vec![("color", kw("blue"))]),
            rule(vec![simple(Some("div"), None, &[])], vec![("color", kw("red"))]),
        ],
    };
    let e = element("div", &[("class", "a")]);
    let props = specified_values(&e, &sheet);
    match props.get("color") {
        Some(Value::Keyword(c)) => assert_eq!(c.as_str(), "blue"),
        other => panic!("expected blue keyword, got {:?}", other),
    }
}

#[test]
fn cascade_equal_specificity_later_rule_wins() {
    let sheet = StyleSheet {
        rules: vec![
            rule(vec![simple(Some("div"), None, &[])], vec![("color", kw("red"))]),
            rule(vec![simple(Some("div"), None, &[])], vec![("color", kw("green"))]),
        ],
    };
    let e = element("div", &[]);
    let props = specified_values(&e, &sheet);
    match props.get("color") {
        Some(Value::Keyword(c)) => assert_eq!(c.as_str(), "green"),
        other => panic!("expected green keyword, got {:?}", other),
    }
}

#[test]
fn cascade_last_declaration_in_rule_wins() {
    let sheet = StyleSheet {
        rules: vec![rule(
            vec![simple(Some("div"), None, &[])],
            vec![("color", kw("red")), ("color", kw("black"))],
        )],
    };
    let e = element("div", &[]);
    let props = specified_values(&e, &sheet);
    match props.get("color") {
        Some(Value::Keyword(c)) => assert_eq!(c.as_str(), "black"),
        other => panic!("expected black keyword, got {:?}", other),
    }
}

#[test]
fn style_tree_builds_one_node_per_document_node() {
    let doc = element_node(
        "html",
        &[],
        vec![
            element_node("div", &[("class", "a")], vec![Node::new_by_text("hi".to_string())]),
            Node::new_by_text("tail".to_string()),
        ],
    );
    let sheet = StyleSheet {
        rules: vec![rule(vec![simple(Some("div"), None, &[])], vec![("display", kw("block"))])],
    };
    let styled = style_tree(&doc, &sheet);
    assert_eq!(styled.children.len(), 2);
    assert_eq!(styled.children[0].children.len(), 1);
    // The div got its display property; text nodes stay empty.
    assert_eq!(styled.children[0].display(), Display::Block);
    assert_eq!(styled.children[0].children[0].display(), Display::Inline);
    assert_eq!(styled.display(), Display::Inline);
}

#[test]
fn lookup_falls_back_to_shorthand_then_default() {
    let node = styled(&[("margin", px(7))], vec![]);
    assert_eq!(node.lookup("margin-left", "margin", &px(0)).to_px(), 7);
    let bare = styled(&[], vec![]);
    assert_eq!(bare.lookup("margin-left", "margin", &px(3)).to_px(), 3);
}

#[test]
fn display_reads_keyword() {
    assert_eq!(styled(&[("display", kw("block"))], vec![]).display(), Display::Block);
    assert_eq!(styled(&[("display", kw("none"))], vec![]).display(), Display::Hidden);
    assert_eq!(styled(&[("display", kw("flex"))], vec![]).display(), Display::Inline);
    assert_eq!(styled(&[], vec![]).display(), Display::Inline);
}

#[test]
fn root_display_none_is_rejected() {
    let root = styled(&[("display", kw("none"))], vec![]);
    match build_layout_tree(root) {
        Err(PipelineError::InvariantViolation) => {},
        other => panic!("expected an invariant violation, got {:?}", other),
    }
}

#[test]
fn stylesheet_with_selectorless_rule_is_rejected() {
    let sheet = StyleSheet { rules: vec![rule(vec![], vec![("color", kw("red"))])] };
    assert_eq!(sheet.validate(), Err(PipelineError::MalformedStylesheet));
    let empty_decls = StyleSheet { rules: vec![rule(vec![simple(Some("p"), None, &[])], vec![])] };
    assert_eq!(empty_decls.validate(), Err(PipelineError::MalformedStylesheet));
    let fine = StyleSheet {
        rules: vec![rule(vec![simple(Some("p"), None, &[])], vec![("color", kw("red"))])],
    };
    assert_eq!(fine.validate(), Ok(()));
}

#[test]
fn hidden_children_are_dropped_and_inline_runs_wrapped() {
    // A block parent with inline, hidden and block children: the hidden
    // child vanishes, the two consecutive inline children coalesce into
    // one anonymous block, the block child stays direct.
    let root = styled(
        &[("display", kw("block"))],
        vec![
            styled(&[], vec![]),
            styled(&[], vec![]),
            styled(&[("display", kw("none"))], vec![]),
            styled(&[("display", kw("block"))], vec![]),
            styled(&[], vec![]),
        ],
    );
    let tree = build_layout_tree(root).expect("root is a block");
    assert_eq!(tree.children.len(), 3);
    match &tree.children[0].box_type {
        BoxType::AnonymousBlock => assert_eq!(tree.children[0].children.len(), 2),
        other => panic!("expected an anonymous block, got {:?}", other),
    }
    assert!(matches!(tree.children[1].box_type, BoxType::BlockNode(_)));
    match &tree.children[2].box_type {
        BoxType::AnonymousBlock => assert_eq!(tree.children[2].children.len(), 1),
        other => panic!("expected an anonymous block, got {:?}", other),
    }
}

#[test]
fn exact_fit_keeps_declared_margins() {
    // width + margins + padding + border == containing width: a no-op.
    let node = styled(
        &[
            ("display", kw("block")),
            ("width", px(600)),
            ("margin-left", px(120)),
            ("margin-right", px(80)),
        ],
        vec![],
    );
    let tree = build_layout_tree(node).unwrap();
    let laid = layout(tree, &viewport(800));
    assert_eq!(laid.dimensions.content.width, 600);
    assert_eq!(laid.dimensions.margin.left, 120);
    assert_eq!(laid.dimensions.margin.right, 80);
}

#[test]
fn auto_width_expands_to_containing_block() {
    let node = styled(&[("display", kw("block"))], vec![]);
    let tree = build_layout_tree(node).unwrap();
    let laid = layout(tree, &viewport(800));
    assert_eq!(laid.dimensions.content.width, 800);
    assert_eq!(laid.dimensions.margin.left, 0);
    assert_eq!(laid.dimensions.margin.right, 0);
}

#[test]
fn auto_margins_center_a_fixed_width_block() {
    let node = styled(
        &[
            ("display", kw("block")),
            ("width", px(200)),
            ("margin-left", kw("auto")),
            ("margin-right", kw("auto")),
        ],
        vec![],
    );
    let tree = build_layout_tree(node).unwrap();
    let laid = layout(tree, &viewport(800));
    assert_eq!(laid.dimensions.content.width, 200);
    assert_eq!(laid.dimensions.margin.left, 300);
    assert_eq!(laid.dimensions.margin.right, 300);
}

#[test]
fn auto_margins_split_odd_underflow_preserving_the_total() {
    // 801 - 200 leaves 601 pixels: the left margin gets 300, the right
    // 301, so margins, padding, border and width still sum to 801.
    let node = styled(
        &[
            ("display", kw("block")),
            ("width", px(200)),
            ("margin-left", kw("auto")),
            ("margin-right", kw("auto")),
        ],
        vec![],
    );
    let tree = build_layout_tree(node).unwrap();
    let laid = layout(tree, &viewport(801));
    assert_eq!(laid.dimensions.content.width, 200);
    assert_eq!(laid.dimensions.margin.left, 300);
    assert_eq!(laid.dimensions.margin.right, 301);
    assert_eq!(
        laid.dimensions.margin.left + laid.dimensions.content.width
            + laid.dimensions.margin.right,
        801
    );
}

#[test]
fn fixed_margins_absorb_underflow_on_the_right() {
    let node = styled(
        &[("display", kw("block")), ("width", px(100)), ("margin-left", px(10)), ("margin-right", px(10))],
        vec![],
    );
    let tree = build_layout_tree(node).unwrap();
    let laid = layout(tree, &viewport(400));
    assert_eq!(laid.dimensions.margin.left, 10);
    // The right margin absorbs the leftover 280 pixels: 10 + 280.
    assert_eq!(laid.dimensions.margin.right, 290);
}

#[test]
fn overconstrained_box_zeroes_auto_margins_and_overflows_right() {
    let node = styled(
        &[("display", kw("block")), ("width", px(500)), ("margin-left", kw("auto")), ("margin-right", kw("auto"))],
        vec![],
    );
    let tree = build_layout_tree(node).unwrap();
    let laid = layout(tree, &viewport(400));
    // Over-constrained: auto margins freeze at zero, the right margin
    // takes the (negative) underflow.
    assert_eq!(laid.dimensions.content.width, 500);
    assert_eq!(laid.dimensions.margin.left, 0);
    assert_eq!(laid.dimensions.margin.right, -100);
}

#[test]
fn siblings_stack_vertically() {
    // Two blocks of margin-box heights 50 and 30 in a parent whose content
    // starts at y = 0: the first sits at y 0, the second at y 50.
    let root = styled(
        &[("display", kw("block"))],
        vec![
            styled(&[("display", kw("block")), ("height", px(50))], vec![]),
            styled(&[("display", kw("block")), ("height", px(30))], vec![]),
        ],
    );
    let tree = build_layout_tree(root).unwrap();
    let laid = layout(tree, &viewport(800));
    assert_eq!(laid.children.len(), 2);
    assert_eq!(laid.children[0].dimensions.content.y, 0);
    assert_eq!(laid.children[0].dimensions.content.height, 50);
    assert_eq!(laid.children[1].dimensions.content.y, 50);
    assert_eq!(laid.children[1].dimensions.content.height, 30);
    // The parent's height is the sum of its children's margin boxes.
    assert_eq!(laid.dimensions.content.height, 80);
}

#[test]
fn margins_count_toward_stacking_offsets() {
    let root = styled(
        &[("display", kw("block"))],
        vec![
            styled(
                &[("display", kw("block")), ("height", px(50)), ("margin-bottom", px(8))],
                vec![],
            ),
            styled(&[("display", kw("block")), ("height", px(30)), ("margin-top", px(5))], vec![]),
        ],
    );
    let tree = build_layout_tree(root).unwrap();
    let laid = layout(tree, &viewport(800));
    // No margin collapsing: 50 + 8 below the first, then 5 above the second.
    assert_eq!(laid.children[1].dimensions.content.y, 63);
    assert_eq!(laid.dimensions.content.height, 93);
}

#[test]
fn explicit_height_overrides_children() {
    let root = styled(
        &[("display", kw("block")), ("height", px(120))],
        vec![styled(&[("display", kw("block")), ("height", px(50))], vec![])],
    );
    let tree = build_layout_tree(root).unwrap();
    let laid = layout(tree, &viewport(800));
    assert_eq!(laid.dimensions.content.height, 120);
}

fn dims_equal(a: &LayoutBox, b: &LayoutBox) -> bool {
    if a.dimensions != b.dimensions || a.children.len() != b.children.len() {
        return false;
    }
    a.children.iter().zip(b.children.iter()).all(|(x, y)| dims_equal(x, y))
}

#[test]
fn layout_is_repeatable_and_idempotent() {
    let make = || {
        styled(
            &[("display", kw("block")), ("padding", px(4))],
            vec![
                styled(&[("display", kw("block")), ("height", px(50))], vec![]),
                styled(&[], vec![]),
                styled(&[("display", kw("block")), ("height", px(30))], vec![]),
            ],
        )
    };
    let first = layout(build_layout_tree(make()).unwrap(), &viewport(800));
    let second = layout(build_layout_tree(make()).unwrap(), &viewport(800));
    assert!(dims_equal(&first, &second));
    // Laying out the already laid tree changes nothing either.
    let again = layout(second, &viewport(800));
    assert!(dims_equal(&first, &again));
}

#[test]
fn padding_and_border_offset_content_position() {
    let root = styled(
        &[("display", kw("block")), ("padding", px(4)), ("border-left-width", px(2)), ("margin-left", px(10))],
        vec![styled(&[("display", kw("block")), ("height", px(10))], vec![])],
    );
    let tree = build_layout_tree(root).unwrap();
    let laid = layout(tree, &viewport(800));
    // x = cb.x (0) + margin-left (10) + border-left (2) + padding-left (4).
    assert_eq!(laid.dimensions.content.x, 16);
    // The parent's own padding-top pushes its content origin down.
    assert_eq!(laid.dimensions.content.y, 4);
    // The child starts at the parent's content origin.
    assert_eq!(laid.children[0].dimensions.content.x, 16);
    assert_eq!(laid.children[0].dimensions.content.y, 4);
}

#[test]
fn margin_box_expands_outward() {
    let node = styled(
        &[("display", kw("block")), ("width", px(100)), ("height", px(20)), ("padding", px(5)), ("margin", px(3))],
        vec![],
    );
    let tree = build_layout_tree(node).unwrap();
    let laid = layout(tree, &viewport(200));
    let mb = laid.dimensions.margin_box();
    assert_eq!(mb.width, 100 + 2 * 5 + 2 * 3 + (200 - 116));
    assert_eq!(mb.height, 20 + 2 * 5 + 2 * 3);
}

#[test]
fn strmap_insert_replaces_and_get_finds() {
    let mut m: StrMap<Value> = StrMap::new();
    m.insert("a".to_string(), px(1));
    m.insert("b".to_string(), px(2));
    m.insert("a".to_string(), px(3));
    assert_eq!(m.get("a").unwrap().to_px(), 3);
    assert_eq!(m.get("b").unwrap().to_px(), 2);
    assert!(m.get("c").is_none());
    assert!(m.contains_key("b"));
}

#[test]
fn element_id_reads_attribute() {
    let e = element("div", &[("id", "main")]);
    assert_eq!(e.id().map(|s| s.as_str()), Some("main"));
    let bare = element("div", &[]);
    assert!(bare.id().is_none());
}
