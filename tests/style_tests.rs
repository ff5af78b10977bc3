use robinson::css::{str_eq, Declaration, Rule, Selector, SimpleSelector, Stylesheet, Unit, Value};
use robinson::dom::{ElementData, Node, NodeType};
use robinson::style::{specified_values, style_tree, Display, PropertyMap, StyledNode};

fn element(tag: &str, id: Option<&str>, classes: &[&str], children: Vec<Node>) -> Node {
    Node {
        children,
        node_type: NodeType::Element(ElementData {
            tag_name: tag.to_string(),
            id: id.map(|s| s.to_string()),
            classes: classes.iter().map(|c| c.to_string()).collect(),
        }),
    }
}

fn text(t: &str) -> Node {
    Node { children: Vec::new(), node_type: NodeType::Text(t.to_string()) }
}

fn selector(tag: Option<&str>, id: Option<&str>, classes: &[&str]) -> Selector {
    Selector::Simple(SimpleSelector {
        tag_name: tag.map(|s| s.to_string()),
        id: id.map(|s| s.to_string()),
        class: classes.iter().map(|c| c.to_string()).collect(),
    })
}

fn kw(s: &str) -> Value {
    Value::Keyword(s.to_string())
}

fn px(n: i32) -> Value {
    Value::Length(n, Unit::Px)
}

fn rule(selectors: Vec<Selector>, decls: Vec<(&str, Value)>) -> Rule {
    Rule {
        selectors,
        declarations: decls
            .into_iter()
            .map(|(n, v)| Declaration { name: n.to_string(), value: v })
            .collect(),
    }
}

#[test]
fn id_rule_beats_later_class_rule() {
    let doc = element("p", Some("x"), &["c"], Vec::new());
    let sheet = Stylesheet {
        rules: vec![
            rule(vec![selector(None, Some("x"), &[])], vec![("color", kw("red"))]),
            rule(vec![selector(None, None, &["c"])], vec![("color", kw("blue"))]),
        ],
    };
    let styled = style_tree(&doc, &sheet);
    assert_eq!(styled.value("color"), Some(kw("red")));
}

#[test]
fn later_rule_of_equal_specificity_wins() {
    let doc = element("p", None, &["a", "b"], Vec::new());
    let sheet = Stylesheet {
        rules: vec![
            rule(vec![selector(None, None, &["a"])], vec![("color", kw("red"))]),
            rule(vec![selector(None, None, &["b"])], vec![("color", kw("blue"))]),
        ],
    };
    let styled = style_tree(&doc, &sheet);
    assert_eq!(styled.value("color"), Some(kw("blue")));
}

#[test]
fn more_classes_beat_tag_and_fewer_classes() {
    let doc = element("div", None, &["a", "b"], Vec::new());
    let sheet = Stylesheet {
        rules: vec![
            rule(vec![selector(None, None, &["a", "b"])], vec![("width", px(10))]),
            rule(vec![selector(Some("div"), None, &[])], vec![("width", px(20))]),
            rule(vec![selector(None, None, &["a"])], vec![("width", px(30))]),
        ],
    };
    let styled = style_tree(&doc, &sheet);
    assert_eq!(styled.value("width"), Some(px(10)));
}

#[test]
fn non_matching_selectors_do_not_apply() {
    let doc = element("div", Some("main"), &["a"], Vec::new());
    let sheet = Stylesheet {
        rules: vec![
            rule(vec![selector(Some("span"), None, &[])], vec![("color", kw("red"))]),
            rule(vec![selector(None, Some("other"), &[])], vec![("color", kw("green"))]),
            rule(vec![selector(None, None, &["a", "missing"])], vec![("color", kw("blue"))]),
            rule(vec![selector(Some("div"), Some("main"), &["a"])], vec![("margin", px(4))]),
        ],
    };
    let styled = style_tree(&doc, &sheet);
    assert_eq!(styled.value("color"), None);
    assert_eq!(styled.value("margin"), Some(px(4)));
}

#[test]
fn empty_selector_matches_everything() {
    let doc = element("span", None, &[], Vec::new());
    let sheet = Stylesheet {
        rules: vec![rule(vec![selector(None, None, &[])], vec![("display", kw("block"))])],
    };
    let styled = style_tree(&doc, &sheet);
    assert_eq!(styled.display(), Display::Block);
}

#[test]
fn first_matching_selector_ranks_the_rule() {
    // The rule matches through its class selector first, so it ranks as a
    // class rule, below the id rule that comes before it.
    let doc = element("p", Some("x"), &["c"], Vec::new());
    let sheet = Stylesheet {
        rules: vec![
            rule(vec![selector(None, Some("x"), &[])], vec![("color", kw("red"))]),
            rule(
                vec![selector(None, None, &["c"]), selector(Some("p"), Some("x"), &["c"])],
                vec![("color", kw("blue"))],
            ),
        ],
    };
    let styled = style_tree(&doc, &sheet);
    assert_eq!(styled.value("color"), Some(kw("red")));
}

#[test]
fn declarations_of_one_rule_apply_in_order() {
    let doc = element("p", None, &[], Vec::new());
    let sheet = Stylesheet {
        rules: vec![rule(
            vec![selector(Some("p"), None, &[])],
            vec![("color", kw("red")), ("color", kw("blue"))],
        )],
    };
    let styled = style_tree(&doc, &sheet);
    assert_eq!(styled.value("color"), Some(kw("blue")));
}

#[test]
fn styling_twice_gives_the_same_maps() {
    let doc = element("div", Some("a"), &["k"], vec![element("p", None, &["k"], Vec::new()), text("hi")]);
    let sheet = Stylesheet {
        rules: vec![
            rule(vec![selector(None, None, &["k"])], vec![("color", kw("red")), ("width", px(3))]),
            rule(vec![selector(None, Some("a"), &[])], vec![("color", kw("blue"))]),
        ],
    };
    let first = style_tree(&doc, &sheet);
    let second = style_tree(&doc, &sheet);
    for name in ["color", "width", "display"] {
        assert_eq!(first.value(name), second.value(name));
        assert_eq!(first.children[0].value(name), second.children[0].value(name));
    }
    assert_eq!(first.value("color"), Some(kw("blue")));
    assert_eq!(first.children[0].value("color"), Some(kw("red")));
}

#[test]
fn text_nodes_have_no_values_and_tree_mirrors_document() {
    let doc = element("div", None, &[], vec![text("a"), element("p", None, &[], vec![text("b")])]);
    let sheet = Stylesheet {
        rules: vec![rule(vec![selector(None, None, &[])], vec![("display", kw("block"))])],
    };
    let styled = style_tree(&doc, &sheet);
    assert_eq!(styled.children.len(), 2);
    assert_eq!(styled.children[0].value("display"), None);
    assert_eq!(styled.children[0].display(), Display::Inline);
    assert_eq!(styled.children[1].children.len(), 1);
    assert_eq!(styled.children[1].display(), Display::Block);
}

#[test]
fn lookup_falls_back_then_defaults() {
    let doc = element("p", None, &[], Vec::new());
    let sheet = Stylesheet {
        rules: vec![rule(vec![selector(None, None, &[])], vec![("margin", px(5)), ("margin-left", px(7))])],
    };
    let styled = style_tree(&doc, &sheet);
    assert_eq!(styled.lookup("margin-left", "margin", &px(0)), px(7));
    assert_eq!(styled.lookup("margin-right", "margin", &px(0)), px(5));
    assert_eq!(styled.lookup("padding-left", "padding", &px(9)), px(9));
}

#[test]
fn display_keywords() {
    let node = text("t");
    let mut values = PropertyMap::new();
    let plain = StyledNode { node: &node, specified_values: PropertyMap::new(), children: Vec::new() };
    assert_eq!(plain.display(), Display::Inline);
    values.insert("display".to_string(), kw("none"));
    let hidden = StyledNode { node: &node, specified_values: values, children: Vec::new() };
    assert_eq!(hidden.display(), Display::Hidden);
    let mut values = PropertyMap::new();
    values.insert("display".to_string(), kw("flex"));
    let other = StyledNode { node: &node, specified_values: values, children: Vec::new() };
    assert_eq!(other.display(), Display::Inline);
    let mut values = PropertyMap::new();
    values.insert("display".to_string(), px(1));
    let length = StyledNode { node: &node, specified_values: values, children: Vec::new() };
    assert_eq!(length.display(), Display::Inline);
}

#[test]
fn property_map_overwrites() {
    let mut m = PropertyMap::new();
    assert_eq!(m.get("a"), None);
    m.insert("a".to_string(), px(1));
    m.insert("b".to_string(), px(2));
    m.insert("a".to_string(), px(3));
    assert_eq!(m.get("a"), Some(&px(3)));
    assert_eq!(m.get("b"), Some(&px(2)));
    assert_eq!(m.get("c"), None);
}

#[test]
fn value_helpers() {
    assert_eq!(px(-4).to_px(), -4);
    assert_eq!(kw("auto").to_px(), 0);
    assert!(kw("auto").is_auto());
    assert!(!kw("autos").is_auto());
    assert!(!px(0).is_auto());
    assert_eq!(kw("x").clone(), kw("x"));
    let s = selector(Some("a"), Some("b"), &["c", "d"]);
    assert_eq!(s.specificity(), (1, 2, 1));
}

fn element_data(tag: &str, id: Option<&str>, classes: &[&str]) -> ElementData {
    ElementData {
        tag_name: tag.to_string(),
        id: id.map(|s| s.to_string()),
        classes: classes.iter().map(|c| c.to_string()).collect(),
    }
}

#[test]
fn selector_matching_checks_each_predicate() {
    let e = element_data("div", Some("main"), &["a", "b"]);
    assert!(robinson::style::matches(&e, &selector(None, None, &[])));
    assert!(robinson::style::matches(&e, &selector(Some("div"), Some("main"), &["b", "a"])));
    assert!(!robinson::style::matches(&e, &selector(Some("span"), None, &[])));
    assert!(!robinson::style::matches(&e, &selector(None, Some("side"), &[])));
    assert!(!robinson::style::matches(&e, &selector(None, None, &["a", "c"])));
    let no_id = element_data("div", None, &[]);
    assert!(!robinson::style::matches(&no_id, &selector(None, Some("main"), &[])));
}

#[test]
fn resolved_map_of_one_element() {
    let e = element_data("p", None, &["k"]);
    let sheet = Stylesheet {
        rules: vec![
            rule(vec![selector(None, None, &["k"])], vec![("color", kw("red")), ("width", px(3))]),
            rule(vec![selector(Some("p"), None, &[])], vec![("color", kw("blue")), ("height", px(1))]),
            rule(vec![selector(Some("a"), None, &[])], vec![("color", kw("green"))]),
        ],
    };
    let m = specified_values(&e, &sheet);
    assert_eq!(m.get("color"), Some(&kw("red")));
    assert_eq!(m.get("width"), Some(&px(3)));
    assert_eq!(m.get("height"), Some(&px(1)));
    assert_eq!(specified_values(&e, &Stylesheet { rules: Vec::new() }).get("color"), None);
}

#[test]
fn string_slices_compare_by_characters() {
    assert!(str_eq("block", "block"));
    assert!(!str_eq("block", "bloc"));
    assert!(!str_eq("none", "nonE"));
    assert!(str_eq("", ""));
}
