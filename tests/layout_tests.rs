use robinson::css::{Unit, Value};
use robinson::dom::{Node, NodeType};
use robinson::layout::{build_layout_tree, layout_tree, BoxType, Dimensions, EdgeSizes, LayoutBox, Rect};
use robinson::style::{PropertyMap, StyledNode};

fn px(n: i32) -> Value {
    Value::Length(n, Unit::Px)
}

fn kw(s: &str) -> Value {
    Value::Keyword(s.to_string())
}

fn styled<'a>(node: &'a Node, decls: Vec<(&str, Value)>, children: Vec<StyledNode<'a>>) -> StyledNode<'a> {
    let mut values = PropertyMap::new();
    for (n, v) in decls {
        values.insert(n.to_string(), v);
    }
    StyledNode { node, specified_values: values, children }
}

fn viewport(width: i64) -> Dimensions {
    let e = EdgeSizes { left: 0, right: 0, top: 0, bottom: 0 };
    Dimensions {
        content: Rect { x: 0, y: 0, width, height: 600 },
        padding: e,
        border: e,
        margin: e,
    }
}

fn margin_box_width(d: &Dimensions) -> i64 {
    d.content.width + d.padding.left + d.padding.right + d.border.left + d.border.right + d.margin.left
        + d.margin.right
}

fn is_anonymous(b: &LayoutBox) -> bool {
    matches!(b.box_type, BoxType::AnonymousBlock)
}

fn is_block(b: &LayoutBox) -> bool {
    matches!(b.box_type, BoxType::BlockNode(_))
}

fn dummy() -> Node {
    Node { children: Vec::new(), node_type: NodeType::Text(String::new()) }
}

#[test]
fn hidden_subtree_gets_no_boxes() {
    let n = dummy();
    let inner = styled(&n, vec![("display", kw("block"))], Vec::new());
    let hidden = styled(&n, vec![("display", kw("none"))], vec![inner]);
    let shown = styled(&n, vec![("display", kw("block"))], Vec::new());
    let root = styled(&n, vec![("display", kw("block"))], vec![hidden, shown]);
    let tree = build_layout_tree(&root);
    assert_eq!(tree.children.len(), 1);
    assert!(is_block(&tree.children[0]));
    assert_eq!(tree.children[0].children.len(), 0);
}

#[test]
fn three_inline_children_share_one_anonymous_box() {
    let n = dummy();
    let kids = vec![styled(&n, vec![], Vec::new()), styled(&n, vec![], Vec::new()), styled(&n, vec![], Vec::new())];
    let root = styled(&n, vec![("display", kw("block"))], kids);
    let tree = build_layout_tree(&root);
    assert_eq!(tree.children.len(), 1);
    assert!(is_anonymous(&tree.children[0]));
    assert_eq!(tree.children[0].children.len(), 3);
    for c in &tree.children[0].children {
        assert!(matches!(c.box_type, BoxType::InlineNode(_)));
    }
}

#[test]
fn block_sibling_splits_inline_runs() {
    let n = dummy();
    let kids = vec![
        styled(&n, vec![], Vec::new()),
        styled(&n, vec![("display", kw("block"))], Vec::new()),
        styled(&n, vec![], Vec::new()),
        styled(&n, vec![("display", kw("none"))], Vec::new()),
        styled(&n, vec![], Vec::new()),
    ];
    let root = styled(&n, vec![("display", kw("block"))], kids);
    let tree = build_layout_tree(&root);
    assert_eq!(tree.children.len(), 3);
    assert!(is_anonymous(&tree.children[0]));
    assert!(is_block(&tree.children[1]));
    assert!(is_anonymous(&tree.children[2]));
    assert_eq!(tree.children[2].children.len(), 2);
}

#[test]
fn inline_parent_holds_children_directly() {
    let n = dummy();
    let kids = vec![styled(&n, vec![], Vec::new()), styled(&n, vec![("display", kw("block"))], Vec::new())];
    let root = styled(&n, vec![], kids);
    let tree = build_layout_tree(&root);
    assert!(matches!(tree.box_type, BoxType::InlineNode(_)));
    assert_eq!(tree.children.len(), 2);
    assert!(!is_anonymous(&tree.children[0]));
    assert!(is_block(&tree.children[1]));
}

#[test]
fn auto_margins_center_a_fixed_width() {
    let n = dummy();
    let root = styled(
        &n,
        vec![("display", kw("block")), ("width", px(100)), ("margin-left", kw("auto")), ("margin-right", kw("auto"))],
        Vec::new(),
    );
    let tree = layout_tree(&root, viewport(800));
    let d = tree.dimensions;
    assert_eq!(d.margin.left, 350);
    assert_eq!(d.margin.right, 350);
    assert_eq!(d.content.width, 100);
    assert_eq!(d.content.x, 350);
}

#[test]
fn odd_leftover_goes_to_right_margin() {
    let n = dummy();
    let root = styled(&n, vec![("display", kw("block")), ("width", px(100)), ("margin", kw("auto"))], Vec::new());
    let tree = layout_tree(&root, viewport(801));
    assert_eq!(tree.dimensions.margin.left, 350);
    assert_eq!(tree.dimensions.margin.right, 351);
}

#[test]
fn auto_width_fills_the_rest() {
    let n = dummy();
    let root = styled(
        &n,
        vec![("display", kw("block")), ("margin", px(10)), ("padding-left", px(5)), ("border-width", px(2))],
        Vec::new(),
    );
    let tree = layout_tree(&root, viewport(800));
    let d = tree.dimensions;
    assert_eq!(d.content.width, 800 - 20 - 5 - 4);
    assert_eq!(d.content.x, 10 + 2 + 5);
    assert_eq!(d.content.y, 10 + 2);
    assert_eq!(margin_box_width(&d), 800);
}

#[test]
fn auto_width_too_wide_leaves_negative_right_margin() {
    let n = dummy();
    let root = styled(&n, vec![("display", kw("block")), ("margin-left", px(500)), ("padding-right", px(400))], Vec::new());
    let tree = layout_tree(&root, viewport(800));
    let d = tree.dimensions;
    assert_eq!(d.content.width, 0);
    assert_eq!(d.margin.right, -100);
    assert_eq!(margin_box_width(&d), 800);
}

#[test]
fn over_constrained_block_adjusts_right_margin() {
    let n = dummy();
    let root = styled(
        &n,
        vec![("display", kw("block")), ("width", px(900)), ("margin-left", kw("auto")), ("margin-right", px(20))],
        Vec::new(),
    );
    let tree = layout_tree(&root, viewport(800));
    let d = tree.dimensions;
    assert_eq!(d.margin.left, 0);
    assert_eq!(d.content.width, 900);
    assert_eq!(d.margin.right, -100);
}

#[test]
fn one_auto_margin_takes_the_rest() {
    let n = dummy();
    let root = styled(
        &n,
        vec![("display", kw("block")), ("width", px(300)), ("margin-left", kw("auto")), ("margin-right", px(20))],
        Vec::new(),
    );
    let tree = layout_tree(&root, viewport(800));
    assert_eq!(tree.dimensions.margin.left, 480);
    assert_eq!(tree.dimensions.margin.right, 20);
}

#[test]
fn auto_height_stacks_children() {
    let n = dummy();
    let a = styled(&n, vec![("display", kw("block")), ("height", px(50))], Vec::new());
    let b = styled(&n, vec![("display", kw("block")), ("height", px(30))], Vec::new());
    let root = styled(&n, vec![("display", kw("block")), ("padding-top", px(7))], vec![a, b]);
    let tree = layout_tree(&root, viewport(800));
    let d = tree.dimensions;
    assert_eq!(d.content.height, 80);
    assert_eq!(tree.children[0].dimensions.content.y, d.content.y);
    assert_eq!(tree.children[1].dimensions.content.y, d.content.y + 50);
    assert_eq!(d.content.y, 7);
}

#[test]
fn explicit_height_wins_over_content() {
    let n = dummy();
    let a = styled(&n, vec![("display", kw("block")), ("height", px(50)), ("margin-bottom", px(5))], Vec::new());
    let root = styled(&n, vec![("display", kw("block")), ("height", px(20))], vec![a]);
    let tree = layout_tree(&root, viewport(800));
    assert_eq!(tree.dimensions.content.height, 20);
    assert_eq!(tree.children[0].dimensions.content.height, 50);
}

#[test]
fn anonymous_box_passes_children_through() {
    let n = dummy();
    let inner = styled(&n, vec![("display", kw("block")), ("height", px(10))], Vec::new());
    let inl = styled(&n, vec![], vec![inner]);
    let first = styled(&n, vec![("display", kw("block")), ("height", px(40))], Vec::new());
    let root = styled(&n, vec![("display", kw("block")), ("margin", px(3))], vec![first, inl]);
    let tree = layout_tree(&root, viewport(800));
    let anon = &tree.children[1];
    assert!(is_anonymous(anon));
    assert_eq!(anon.dimensions.content.y, tree.dimensions.content.y + 40);
    assert_eq!(anon.dimensions.content.width, tree.dimensions.content.width);
    assert_eq!(anon.dimensions.content.height, 10);
    assert_eq!(tree.dimensions.content.height, 50);
}

fn check_geometry(b: &LayoutBox, containing_width: i64) {
    let d = &b.dimensions;
    let border = d.content.width + d.padding.left + d.padding.right + d.border.left + d.border.right;
    assert_eq!(margin_box_width(d), border + d.margin.left + d.margin.right);
    if is_block(b) {
        assert_eq!(margin_box_width(d), containing_width);
    }
    for c in &b.children {
        check_geometry(c, d.content.width);
    }
}

#[test]
fn every_block_fills_its_containing_width() {
    let n = dummy();
    let leaf = styled(&n, vec![("display", kw("block")), ("width", px(50)), ("margin-left", kw("auto"))], Vec::new());
    let mid = styled(&n, vec![("display", kw("block")), ("padding", px(12)), ("border-width", px(1))], vec![leaf]);
    let text = styled(&n, vec![], Vec::new());
    let root = styled(&n, vec![("display", kw("block")), ("margin", px(8))], vec![mid, text]);
    let tree = layout_tree(&root, viewport(640));
    check_geometry(&tree, 640);
}
