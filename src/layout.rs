//! Block layout: the tree of boxes and the geometry of each box.
use vstd::prelude::*;
use crate::css::{is_auto_value, px_of, Unit, Value};
use crate::style::{display_of, lookup_of, value_of, Display, StyledNode};

verus! {

/// A rectangle, in pixels.
#[derive(PartialEq, Eq, Structural, Clone, Copy, Debug)]
pub struct Rect {
    pub x: i64,
    pub y: i64,
    pub width: i64,
    pub height: i64,
}

/// The sizes of the four sides of a margin, border or padding, in pixels.
#[derive(PartialEq, Eq, Structural, Clone, Copy, Debug)]
pub struct EdgeSizes {
    pub left: i64,
    pub right: i64,
    pub top: i64,
    pub bottom: i64,
}

/// The content rectangle of a box (relative to the document origin) and the
/// edges around it.
#[derive(PartialEq, Eq, Structural, Clone, Copy, Debug)]
pub struct Dimensions {
    pub content: Rect,
    pub padding: EdgeSizes,
    pub border: EdgeSizes,
    pub margin: EdgeSizes,
}

pub open spec fn zero_edges() -> EdgeSizes {
    EdgeSizes { left: 0, right: 0, top: 0, bottom: 0 }
}

pub open spec fn zero_dimensions() -> Dimensions {
    Dimensions {
        content: Rect { x: 0, y: 0, width: 0, height: 0 },
        padding: zero_edges(),
        border: zero_edges(),
        margin: zero_edges(),
    }
}

impl Default for Dimensions {
    fn default() -> (r: Dimensions)
        ensures
            r == zero_dimensions(),
    {
        let e = EdgeSizes { left: 0, right: 0, top: 0, bottom: 0 };
        Dimensions { content: Rect { x: 0, y: 0, width: 0, height: 0 }, padding: e, border: e, margin: e }
    }
}

/// The kind of a box: one generated by a block or an inline node, or an
/// anonymous block that holds inline boxes inside a block.
pub enum BoxType<'a> {
    BlockNode(&'a StyledNode<'a>),
    InlineNode(&'a StyledNode<'a>),
    AnonymousBlock,
}

/// A node of the layout tree.
pub struct LayoutBox<'a> {
    pub dimensions: Dimensions,
    pub box_type: BoxType<'a>,
    pub children: Vec<LayoutBox<'a>>,
}

/// How the children of a styled node are grouped into the boxes of its
/// layout box, in order: each group is a list of child indices, and the flag
/// says whether the group is an anonymous block holding those children's
/// boxes (else the group is one child whose box stands directly).
/// Children with display `none` are left out. Inside a block, consecutive
/// inline children share one anonymous block; inside an inline box every
/// child stands directly.
pub open spec fn groups(in_block: bool, kids: Seq<StyledNode>) -> Seq<(bool, Seq<int>)>
    decreases kids.len(),
{
    if kids.len() == 0 {
        Seq::empty()
    } else {
        let g = groups(in_block, kids.drop_last());
        let i = kids.len() - 1;
        match display_of(kids.last().specified_values@) {
            Display::Hidden => g,
            Display::Block => g.push((false, seq![i])),
            Display::Inline => if !in_block {
                g.push((false, seq![i]))
            } else if g.len() > 0 && g.last().0 {
                g.update(g.len() - 1, (true, g.last().1.push(i)))
            } else {
                g.push((true, seq![i]))
            },
        }
    }
}

/// `b` is the (not yet laid out) layout tree of `s`: a block or inline box
/// for `s` as its display says, with zero dimensions, whose children stand
/// for the groups of the children of `s` (each as `group_built` says; the
/// condition is written out here so that the definition recurses on `s`).
pub open spec fn is_layout_tree(b: LayoutBox, s: StyledNode) -> bool
    decreases s,
{
    let d = display_of(s.specified_values@);
    let g = groups(d == Display::Block, s.children@);
    &&& d != Display::Hidden
    &&& match b.box_type {
        BoxType::BlockNode(n) => d == Display::Block && *n == s,
        BoxType::InlineNode(n) => d == Display::Inline && *n == s,
        BoxType::AnonymousBlock => false,
    }
    &&& b.dimensions == zero_dimensions()
    &&& b.children.len() == g.len()
    &&& forall|i: int|
        0 <= i < b.children.len() ==> {
            let c = #[trigger] b.children@[i];
            if g[i].0 {
                &&& c.box_type is AnonymousBlock
                &&& c.dimensions == zero_dimensions()
                &&& c.children.len() == g[i].1.len()
                &&& forall|k: int|
                    0 <= k < g[i].1.len() ==> 0 <= #[trigger] g[i].1[k] < s.children.len()
                &&& forall|k: int|
                    0 <= k < g[i].1.len() && 0 <= g[i].1[k] < s.children.len() ==> is_layout_tree(
                        #[trigger] c.children@[k],
                        s.children@[g[i].1[k]],
                    )
            } else {
                &&& g[i].1.len() == 1
                &&& 0 <= g[i].1[0] < s.children.len()
                &&& is_layout_tree(c, s.children@[g[i].1[0]])
            }
        }
}

/// Box `c` stands for group `g` of the children of `s` (see `groups`).
pub open spec fn group_built(c: LayoutBox, g: (bool, Seq<int>), s: StyledNode) -> bool {
    if g.0 {
        &&& c.box_type is AnonymousBlock
        &&& c.dimensions == zero_dimensions()
        &&& c.children.len() == g.1.len()
        &&& forall|k: int| 0 <= k < g.1.len() ==> 0 <= #[trigger] g.1[k] < s.children.len()
        &&& forall|k: int|
            0 <= k < g.1.len() && 0 <= g.1[k] < s.children.len() ==> is_layout_tree(
                #[trigger] c.children@[k],
                s.children@[g.1[k]],
            )
    } else {
        &&& g.1.len() == 1
        &&& 0 <= g.1[0] < s.children.len()
        &&& is_layout_tree(c, s.children@[g.1[0]])
    }
}


/// `x` limited to the range of `i64`.
pub open spec fn clamp64(x: int) -> int {
    if x > i64::MAX {
        i64::MAX as int
    } else if x < i64::MIN {
        i64::MIN as int
    } else {
        x
    }
}

/// Half of `u`, rounded toward zero.
pub open spec fn half(u: int) -> int {
    if u >= 0 {
        u / 2
    } else {
        -((-u) / 2)
    }
}

pub open spec fn zero_length() -> Value {
    Value::Length(0, Unit::Px)
}

/// The pixel size of property `name`, else of `fallback`, else zero.
pub open spec fn side(m: Map<Seq<char>, Value>, name: Seq<char>, fallback: Seq<char>) -> int {
    px_of(lookup_of(m, name, fallback, zero_length()))
}

/// The horizontal sizes of a block, (margin-left, width, margin-right), given
/// the containing width `cbw`, whether each of width and the two margins is
/// `auto` with its pixel size otherwise, and the sum of the horizontal
/// borders and paddings. The three always add up, with `edges`, to `cbw`:
/// - if the fixed sizes overflow `cbw`, auto margins count as zero;
/// - an auto width takes all the room left, auto margins becoming zero; if
///   no room is left it is zero and the right margin goes negative;
/// - two auto margins share the room left, the odd pixel going right;
/// - one auto margin takes the room left;
/// - with nothing auto, the right margin is adjusted.
pub open spec fn resolve_width(
    cbw: int,
    w_auto: bool,
    w: int,
    ml_auto: bool,
    ml: int,
    mr_auto: bool,
    mr: int,
    edges: int,
) -> (int, int, int) {
    let total = ml + mr + edges + w;
    let over = !w_auto && total > cbw;
    let l_auto = ml_auto && !over;
    let r_auto = mr_auto && !over;
    let under = cbw - total;
    if w_auto {
        let l = if l_auto { 0 } else { ml };
        let r = if r_auto { 0 } else { mr };
        if under >= 0 {
            (l, under, r)
        } else {
            (l, 0, r + under)
        }
    } else if l_auto && r_auto {
        (half(under), w, under - half(under))
    } else if l_auto {
        (under, w, mr)
    } else if r_auto {
        (ml, w, under)
    } else {
        (ml, w, mr + under)
    }
}

/// The unclamped (margin-left, width, margin-right) of a block with property
/// map `m` in a containing block of content width `cbw`.
pub open spec fn block_widths(m: Map<Seq<char>, Value>, cbw: int) -> (int, int, int) {
    let wv = value_of(m, "width"@);
    let mlv = lookup_of(m, "margin-left"@, "margin"@, zero_length());
    let mrv = lookup_of(m, "margin-right"@, "margin"@, zero_length());
    resolve_width(
        cbw,
        match wv {
            Some(v) => is_auto_value(v),
            None => true,
        },
        match wv {
            Some(v) => px_of(v),
            None => 0,
        },
        is_auto_value(mlv),
        px_of(mlv),
        is_auto_value(mrv),
        px_of(mrv),
        side(m, "border-left-width"@, "border-width"@) + side(m, "border-right-width"@, "border-width"@)
            + side(m, "padding-left"@, "padding"@) + side(m, "padding-right"@, "padding"@),
    )
}

/// The dimensions of a block box with property map `m` in containing block
/// `cb`, before its content height is known (it is zero here): widths and
/// horizontal edges from `block_widths`, vertical edges as specified, and the
/// content placed at the containing block's left edge plus the left margin,
/// border and padding, below the `cb.content.height` pixels that earlier
/// siblings take.
pub open spec fn block_frame(m: Map<Seq<char>, Value>, cb: Dimensions) -> Dimensions {
    let (l, w, r) = block_widths(m, cb.content.width as int);
    let ml = clamp64(l);
    let bl = side(m, "border-left-width"@, "border-width"@);
    let pl = side(m, "padding-left"@, "padding"@);
    let mt = side(m, "margin-top"@, "margin"@);
    let bt = side(m, "border-top-width"@, "border-width"@);
    let pt = side(m, "padding-top"@, "padding"@);
    Dimensions {
        content: Rect {
            x: clamp64(cb.content.x + ml + bl + pl) as i64,
            y: clamp64(cb.content.y + cb.content.height + mt + bt + pt) as i64,
            width: clamp64(w) as i64,
            height: 0,
        },
        padding: EdgeSizes {
            left: pl as i64,
            right: side(m, "padding-right"@, "padding"@) as i64,
            top: pt as i64,
            bottom: side(m, "padding-bottom"@, "padding"@) as i64,
        },
        border: EdgeSizes {
            left: bl as i64,
            right: side(m, "border-right-width"@, "border-width"@) as i64,
            top: bt as i64,
            bottom: side(m, "border-bottom-width"@, "border-width"@) as i64,
        },
        margin: EdgeSizes {
            left: ml as i64,
            right: clamp64(r) as i64,
            top: mt as i64,
            bottom: side(m, "margin-bottom"@, "margin"@) as i64,
        },
    }
}

/// The dimensions of an inline or anonymous box in containing block `cb`
/// before its content height is known: no edges, the containing block's
/// left edge and width, below the `cb.content.height` pixels that earlier
/// siblings take.
pub open spec fn flow_frame(cb: Dimensions) -> Dimensions {
    Dimensions {
        content: Rect {
            x: cb.content.x,
            y: clamp64(cb.content.y + cb.content.height) as i64,
            width: cb.content.width,
            height: 0,
        },
        padding: zero_edges(),
        border: zero_edges(),
        margin: zero_edges(),
    }
}

/// `d` with content height `h`.
pub open spec fn with_height(d: Dimensions, h: int) -> Dimensions {
    Dimensions {
        content: Rect { x: d.content.x, y: d.content.y, width: d.content.width, height: h as i64 },
        padding: d.padding,
        border: d.border,
        margin: d.margin,
    }
}

/// Width of the border box: content, padding and border.
pub open spec fn border_box_width(d: Dimensions) -> int {
    d.content.width + d.padding.left + d.padding.right + d.border.left + d.border.right
}

/// Width of the margin box: border box and margin.
pub open spec fn margin_box_width(d: Dimensions) -> int {
    border_box_width(d) + d.margin.left + d.margin.right
}

/// Height of the margin box: content, padding, border and margin.
pub open spec fn margin_box_height(d: Dimensions) -> int {
    d.content.height + d.padding.top + d.padding.bottom + d.border.top + d.border.bottom
        + d.margin.top + d.margin.bottom
}

/// The height that the first `i` boxes of `cs` take, stacked one below the
/// other (limited to the range of `i64`).
pub open spec fn stacked(cs: Seq<LayoutBox>, i: int) -> int
    decreases i,
{
    if i <= 0 {
        0
    } else {
        clamp64(stacked(cs, i - 1) + clamp64(margin_box_height(cs[i - 1].dimensions)))
    }
}

/// The content height of a box: an explicit `height` length of a block if
/// it has one, else the height its children take.
pub open spec fn content_height<'a>(t: BoxType<'a>, children_height: int) -> int {
    match t {
        BoxType::BlockNode(n) => match value_of(n.specified_values@, "height"@) {
            Some(Value::Length(h, Unit::Px)) => h as int,
            _ => children_height,
        },
        _ => children_height,
    }
}

/// The dimensions of a box of type `t` before its content height is known.
pub open spec fn frame<'a>(t: BoxType<'a>, cb: Dimensions) -> Dimensions {
    match t {
        BoxType::BlockNode(n) => block_frame(n.specified_values@, cb),
        _ => flow_frame(cb),
    }
}

/// `b` is `old` laid out in containing block `cb`: the same boxes, each
/// child laid out inside this box's content, below its earlier siblings,
/// and this box sized by `frame` and `content_height`.
#[verifier::opaque]
pub open spec fn is_laid_out(b: LayoutBox, old: LayoutBox, cb: Dimensions) -> bool
    decreases old,
{
    let n = old.children.len() as int;
    let f = frame(old.box_type, cb);
    &&& b.box_type == old.box_type
    &&& b.children.len() == n
    &&& b.dimensions == with_height(f, content_height(old.box_type, stacked(b.children@, n)))
    &&& forall|i: int|
        0 <= i < n ==> is_laid_out(
            #[trigger] b.children@[i],
            old.children@[i],
            with_height(f, stacked(b.children@, i)),
        )
}

proof fn lemma_stacked_prefix(a: Seq<LayoutBox>, b: Seq<LayoutBox>, i: int)
    requires
        0 <= i <= a.len(),
        i <= b.len(),
        forall|k: int| 0 <= k < i ==> a[k].dimensions == b[k].dimensions,
    ensures
        stacked(a, i) == stacked(b, i),
    decreases i,
{
    if i > 0 {
        lemma_stacked_prefix(a, b, i - 1);
    }
}

/// `v` limited to the range of `i64`.
fn clamp_to_i64(v: i128) -> (r: i64)
    ensures
        r as int == clamp64(v as int),
{
    if v > i64::MAX as i128 {
        i64::MAX
    } else if v < i64::MIN as i128 {
        i64::MIN
    } else {
        v as i64
    }
}

impl<'a> LayoutBox<'a> {
    fn new(box_type: BoxType<'a>) -> (r: LayoutBox<'a>)
        ensures
            r.dimensions == zero_dimensions(),
            r.box_type == box_type,
            r.children@.len() == 0,
    {
        LayoutBox { dimensions: Dimensions::default(), box_type, children: Vec::new() }
    }

    /// Put a box for an inline child where inline content goes: into this box
    /// itself if it is inline or anonymous; inside a block, into its last
    /// child if that is an anonymous block, else into a new anonymous block
    /// appended for it.
    fn push_to_inline_container(&mut self, child: LayoutBox<'a>)
        ensures
            final(self).dimensions == old(self).dimensions,
            final(self).box_type == old(self).box_type,
            !(old(self).box_type is BlockNode) ==> final(self).children@ == old(
                self,
            ).children@.push(child),
            (old(self).box_type is BlockNode && old(self).children@.len() > 0 && old(
                self,
            ).children@.last().box_type is AnonymousBlock) ==> {
                let n = old(self).children@.len() - 1;
                let last = final(self).children@[n];
                &&& final(self).children@.len() == old(self).children@.len()
                &&& forall|k: int| 0 <= k < n ==> final(self).children@[k] == old(self).children@[k]
                &&& last.box_type is AnonymousBlock
                &&& last.dimensions == old(self).children@[n].dimensions
                &&& last.children@ == old(self).children@[n].children@.push(child)
            },
            (old(self).box_type is BlockNode && !(old(self).children@.len() > 0 && old(
                self,
            ).children@.last().box_type is AnonymousBlock)) ==> {
                let n = old(self).children@.len() as int;
                let last = final(self).children@[n];
                &&& final(self).children@.len() == n + 1
                &&& forall|k: int| 0 <= k < n ==> final(self).children@[k] == old(self).children@[k]
                &&& last.box_type is AnonymousBlock
                &&& last.dimensions == zero_dimensions()
                &&& last.children@ == seq![child]
            },
    {
        match self.box_type {
            BoxType::InlineNode(_) | BoxType::AnonymousBlock => {
                self.children.push(child);
            },
            BoxType::BlockNode(_) => {
                let n = self.children.len();
                if n > 0 && matches!(self.children[n - 1].box_type, BoxType::AnonymousBlock) {
                    let mut last = self.children.pop().unwrap();
                    last.children.push(child);
                    self.children.push(last);
                } else {
                    let mut anon = LayoutBox::new(BoxType::AnonymousBlock);
                    anon.children.push(child);
                    self.children.push(anon);
                }
            },
        }
    }
}

proof fn lemma_anonymous_group(c: LayoutBox, idx: Seq<int>, s: StyledNode)
    requires
        c.box_type is AnonymousBlock,
        c.dimensions == zero_dimensions(),
        c.children@.len() == idx.len(),
        forall|k: int| 0 <= k < idx.len() ==> 0 <= #[trigger] idx[k] < s.children.len(),
        forall|k: int|
            0 <= k < idx.len() && 0 <= idx[k] < s.children.len() ==> is_layout_tree(
                #[trigger] c.children@[k],
                s.children@[idx[k]],
            ),
    ensures
        group_built(c, (true, idx), s),
{
}

/// Build the tree of boxes for a styled tree, without any geometry yet.
/// The root must not have display `none`.
pub fn build_layout_tree<'a>(style_node: &'a StyledNode<'a>) -> (r: LayoutBox<'a>)
    requires
        display_of(style_node.specified_values@) != Display::Hidden,
    ensures
        is_layout_tree(r, *style_node),
    decreases style_node,
{
    let d = style_node.display();
    let mut root = LayoutBox::new(
        match d {
            Display::Block => BoxType::BlockNode(style_node),
            _ => BoxType::InlineNode(style_node),
        },
    );
    let ghost blk = d == Display::Block;
    let ghost kids = style_node.children@;
    let mut i: usize = 0;
    while i < style_node.children.len()
        invariant
            d == display_of(style_node.specified_values@),
            d != Display::Hidden,
            blk == (d == Display::Block),
            kids == style_node.children@,
            i <= kids.len(),
            match root.box_type {
                BoxType::BlockNode(n) => d == Display::Block && *n == *style_node,
                BoxType::InlineNode(n) => d == Display::Inline && *n == *style_node,
                BoxType::AnonymousBlock => false,
            },
            root.dimensions == zero_dimensions(),
            root.children@.len() == groups(blk, kids.take(i as int)).len(),
            forall|j: int|
                0 <= j < root.children@.len() ==> group_built(
                    #[trigger] root.children@[j],
                    groups(blk, kids.take(i as int))[j],
                    *style_node,
                ),
        decreases kids.len() - i,
    {
        let ghost g = groups(blk, kids.take(i as int));
        let ghost old_children = root.children@;
        assert(kids.take(i + 1).drop_last() =~= kids.take(i as int));
        assert(kids.take(i + 1).last() == kids[i as int]);
        let child = &style_node.children[i];
        match child.display() {
            Display::Block => {
                assert(decreases_to!(style_node => style_node.children@[i as int]));
                let b = build_layout_tree(child);
                root.children.push(b);
                assert(groups(blk, kids.take(i + 1)) == g.push((false, seq![i as int])));
                assert forall|j: int| 0 <= j < root.children@.len() implies group_built(
                    #[trigger] root.children@[j],
                    groups(blk, kids.take(i + 1))[j],
                    *style_node,
                ) by {
                    if j < old_children.len() {
                        assert(root.children@[j] == old_children[j]);
                    }
                }
            },
            Display::Inline => {
                assert(decreases_to!(style_node => style_node.children@[i as int]));
                let b = build_layout_tree(child);
                let ghost last_anon = old_children.len() > 0
                    && old_children.last().box_type is AnonymousBlock;
                proof {
                    if old_children.len() > 0 {
                        let n = old_children.len() - 1;
                        assert(group_built(old_children[n], g[n], *style_node));
                        assert(last_anon == g[n].0);
                    }
                }
                root.push_to_inline_container(b);
                proof {
                    if !blk {
                        assert(groups(blk, kids.take(i + 1)) == g.push((false, seq![i as int])));
                        assert forall|j: int| 0 <= j < root.children@.len() implies group_built(
                            #[trigger] root.children@[j],
                            groups(blk, kids.take(i + 1))[j],
                            *style_node,
                        ) by {
                            if j < old_children.len() {
                                assert(root.children@[j] == old_children[j]);
                            }
                        }
                    } else if last_anon {
                        let n = g.len() - 1;
                        let ng = (true, g[n].1.push(i as int));
                        assert(groups(blk, kids.take(i + 1)) == g.update(n, ng));
                        assert forall|j: int| 0 <= j < root.children@.len() implies group_built(
                            #[trigger] root.children@[j],
                            groups(blk, kids.take(i + 1))[j],
                            *style_node,
                        ) by {
                            if j < n {
                                assert(root.children@[j] == old_children[j]);
                            } else {
                                let c = root.children@[j];
                                assert(group_built(old_children[n], g[n], *style_node));
                                assert(j == n);
                                assert(c.children@ == old_children[n].children@.push(b));
                                assert(c.children@.len() == ng.1.len());
                                assert forall|k: int| 0 <= k < ng.1.len() implies 0 <= #[trigger] ng.1[k]
                                    < style_node.children.len() by {
                                    if k < g[n].1.len() {
                                        assert(ng.1[k] == g[n].1[k]);
                                    } else {
                                        assert(ng.1[k] == i);
                                    }
                                }
                                assert forall|k: int| 0 <= k < ng.1.len() && 0 <= ng.1[k] < style_node.children.len() implies is_layout_tree(
                                    #[trigger] c.children@[k],
                                    style_node.children@[ng.1[k]],
                                ) by {
                                    if k < g[n].1.len() {
                                        assert(c.children@[k] == old_children[n].children@[k]);
                                        assert(ng.1[k] == g[n].1[k]);
                                    } else {
                                        assert(c.children@[k] == b);
                                        assert(ng.1[k] == i);
                                    }
                                }
                                assert(c.box_type is AnonymousBlock);
                                assert(c.dimensions == zero_dimensions());
                                lemma_anonymous_group(c, ng.1, *style_node);
                                assert(group_built(c, ng, *style_node));
                                assert(groups(blk, kids.take(i + 1))[j] == ng);
                            }
                        }
                    } else {
                        assert(groups(blk, kids.take(i + 1)) == g.push((true, seq![i as int])));
                        assert forall|j: int| 0 <= j < root.children@.len() implies group_built(
                            #[trigger] root.children@[j],
                            groups(blk, kids.take(i + 1))[j],
                            *style_node,
                        ) by {
                            if j < old_children.len() {
                                assert(root.children@[j] == old_children[j]);
                            } else {
                                assert(root.children@[j].children@[0] == b);
                            }
                        }
                    }
                }
            },
            Display::Hidden => {
                assert(groups(blk, kids.take(i + 1)) == g);
            },
        }
        i = i + 1;
    }
    assert(kids.take(i as int) =~= kids);
    root
}

/// The pixel size of property `name`, else of `fallback`, else zero.
fn side_px(style: &StyledNode, name: &str, fallback: &str) -> (r: i64)
    ensures
        r as int == side(style.specified_values@, name@, fallback@),
        i32::MIN <= r <= i32::MAX,
{
    let zero = Value::Length(0, Unit::Px);
    let v = style.lookup(name, fallback, &zero);
    let r = v.to_px();
    r
}

/// Resolve (margin-left, width, margin-right) of a block, each limited to
/// the range of `i64` (see `resolve_width`).
fn calculate_block_width(style: &StyledNode, containing_width: i64) -> (r: (i64, i64, i64))
    ensures
        r.0 as int == clamp64(block_widths(style.specified_values@, containing_width as int).0),
        r.1 as int == clamp64(block_widths(style.specified_values@, containing_width as int).1),
        r.2 as int == clamp64(block_widths(style.specified_values@, containing_width as int).2),
{
    let zero = Value::Length(0, Unit::Px);
    let cbw = containing_width as i128;
    let (w_auto, w): (bool, i128) = match style.value("width") {
        Some(v) => (v.is_auto(), v.to_px() as i128),
        None => (true, 0),
    };
    let mlv = style.lookup("margin-left", "margin", &zero);
    let mrv = style.lookup("margin-right", "margin", &zero);
    let ml = mlv.to_px() as i128;
    let mr = mrv.to_px() as i128;
    let edges = side_px(style, "border-left-width", "border-width") as i128 + side_px(
        style,
        "border-right-width",
        "border-width",
    ) as i128 + side_px(style, "padding-left", "padding") as i128 + side_px(
        style,
        "padding-right",
        "padding",
    ) as i128;
    let total = ml + mr + edges + w;
    // If the width is fixed and the total is wider than the container, auto
    // margins count as zero.
    let over = !w_auto && total > cbw;
    let l_auto = mlv.is_auto() && !over;
    let r_auto = mrv.is_auto() && !over;
    let under = cbw - total;
    let (l, cw, r): (i128, i128, i128) = if w_auto {
        let l: i128 = if l_auto { 0 } else { ml };
        let r: i128 = if r_auto { 0 } else { mr };
        if under >= 0 {
            (l, under, r)
        } else {
            (l, 0, r + under)
        }
    } else if l_auto && r_auto {
        let h: i128 = if under >= 0 { under / 2 } else { -((-under) / 2) };
        (h, w, under - h)
    } else if l_auto {
        (under, w, mr)
    } else if r_auto {
        (ml, w, under)
    } else {
        (ml, w, mr + under)
    };
    (clamp_to_i64(l), clamp_to_i64(cw), clamp_to_i64(r))
}

/// The dimensions of a block box in `containing_block` before its content
/// height is known: its widths and horizontal edges, then its position and
/// vertical edges.
fn calculate_block_frame(style: &StyledNode, containing_block: Dimensions) -> (r: Dimensions)
    ensures
        r == block_frame(style.specified_values@, containing_block),
{
    let (ml, w, mr) = calculate_block_width(style, containing_block.content.width);
    let bl = side_px(style, "border-left-width", "border-width");
    let br = side_px(style, "border-right-width", "border-width");
    let pl = side_px(style, "padding-left", "padding");
    let pr = side_px(style, "padding-right", "padding");
    let mt = side_px(style, "margin-top", "margin");
    let mb = side_px(style, "margin-bottom", "margin");
    let bt = side_px(style, "border-top-width", "border-width");
    let bb = side_px(style, "border-bottom-width", "border-width");
    let pt = side_px(style, "padding-top", "padding");
    let pb = side_px(style, "padding-bottom", "padding");
    let cb = containing_block.content;
    let x = clamp_to_i64(cb.x as i128 + ml as i128 + bl as i128 + pl as i128);
    let y = clamp_to_i64(cb.y as i128 + cb.height as i128 + mt as i128 + bt as i128 + pt as i128);
    Dimensions {
        content: Rect { x, y, width: w, height: 0 },
        padding: EdgeSizes { left: pl, right: pr, top: pt, bottom: pb },
        border: EdgeSizes { left: bl, right: br, top: bt, bottom: bb },
        margin: EdgeSizes { left: ml, right: mr, top: mt, bottom: mb },
    }
}

/// The height of the margin box of `d`, limited to the range of `i64`.
fn margin_box_height_of(d: &Dimensions) -> (r: i64)
    ensures
        r as int == clamp64(margin_box_height(*d)),
{
    clamp_to_i64(
        d.content.height as i128 + d.padding.top as i128 + d.padding.bottom as i128
            + d.border.top as i128 + d.border.bottom as i128 + d.margin.top as i128
            + d.margin.bottom as i128,
    )
}

impl<'a> LayoutBox<'a> {
    /// Lay out this box and its descendants in `containing_block`, whose
    /// content height counts the pixels that earlier siblings take.
    pub fn layout(&mut self, containing_block: Dimensions)
        ensures
            is_laid_out(*final(self), *old(self), containing_block),
        decreases old(self).children@, 1int,
    {
        let ghost old_self = *self;
        let f = match self.box_type {
            BoxType::BlockNode(style) => calculate_block_frame(style, containing_block),
            _ => {
                let cb = containing_block.content;
                let y = clamp_to_i64(cb.y as i128 + cb.height as i128);
                let e = EdgeSizes { left: 0, right: 0, top: 0, bottom: 0 };
                Dimensions {
                    content: Rect { x: cb.x, y, width: cb.width, height: 0 },
                    padding: e,
                    border: e,
                    margin: e,
                }
            },
        };
        assert(f == frame(old_self.box_type, containing_block));
        self.dimensions = f;
        self.layout_children(f);
        self.calculate_block_height();
        proof {
            reveal(is_laid_out);
        }
    }

    /// Lay out the children one below the other inside this box's content,
    /// leaving their total height as this box's content height.
    fn layout_children(&mut self, f: Dimensions)
        requires
            old(self).dimensions == f,
            f.content.height == 0,
        ensures
            final(self).box_type == old(self).box_type,
            final(self).children@.len() == old(self).children@.len(),
            final(self).dimensions == with_height(f, stacked(final(self).children@, old(self).children@.len() as int)),
            forall|i: int|
                0 <= i < old(self).children@.len() ==> is_laid_out(
                    #[trigger] final(self).children@[i],
                    old(self).children@[i],
                    with_height(f, stacked(final(self).children@, i)),
                ),
        decreases old(self).children@, 0int,
    {
        let ghost old_children = self.children@;
        let mut i: usize = 0;
        assert(f == with_height(f, stacked(self.children@, 0)));
        while i < self.children.len()
            invariant
                i <= self.children@.len(),
                self.children@.len() == old_children.len(),
                self.box_type == old(self).box_type,
                old_children == old(self).children@,
                self.dimensions == with_height(f, stacked(self.children@, i as int)),
                forall|k: int| i <= k < old_children.len() ==> self.children@[k] == old_children[k],
                forall|k: int|
                    0 <= k < i ==> is_laid_out(
                        #[trigger] self.children@[k],
                        old_children[k],
                        with_height(f, stacked(self.children@, k)),
                    ),
            decreases old_children.len() - i,
        {
            let ghost before = self.children@;
            let cb = self.dimensions;
            assert(decreases_to!(old_children => old_children[i as int].children@));
            self.children[i].layout(cb);
            let h = margin_box_height_of(&self.children[i].dimensions);
            self.dimensions.content.height = clamp_to_i64(
                self.dimensions.content.height as i128 + h as i128,
            );
            proof {
                assert forall|k: int| 0 <= k <= i implies stacked(self.children@, k) == stacked(before, k) by {
                    lemma_stacked_prefix(self.children@, before, k);
                }
                assert(stacked(self.children@, i + 1) == clamp64(
                    stacked(self.children@, i as int) + clamp64(margin_box_height(self.children@[i as int].dimensions)),
                ));
                assert forall|k: int| 0 <= k < i + 1 implies is_laid_out(
                    #[trigger] self.children@[k],
                    old_children[k],
                    with_height(f, stacked(self.children@, k)),
                ) by {
                    if k < i {
                        assert(self.children@[k] == before[k]);
                    }
                }
            }
            i = i + 1;
        }
    }

    /// Set the content height: an explicit `height` length of a block, else
    /// the height the children take (already in place).
    fn calculate_block_height(&mut self)
        ensures
            final(self).box_type == old(self).box_type,
            final(self).children == old(self).children,
            final(self).dimensions == with_height(
                old(self).dimensions,
                content_height(old(self).box_type, old(self).dimensions.content.height as int),
            ),
    {
        match self.box_type {
            BoxType::BlockNode(style) => match style.value("height") {
                Some(Value::Length(h, Unit::Px)) => {
                    self.dimensions.content.height = h as i64;
                },
                _ => {},
            },
            _ => {},
        }
    }
}

/// Lay out a styled tree in `containing_block`: build its boxes, then size
/// and place them, the root at the top of the containing block's content.
/// The root must not have display `none`.
pub fn layout_tree<'a>(node: &'a StyledNode<'a>, containing_block: Dimensions) -> (r: LayoutBox<'a>)
    requires
        display_of(node.specified_values@) != Display::Hidden,
    ensures
        exists|b: LayoutBox<'a>|
            is_layout_tree(b, *node) && is_laid_out(r, b, with_height(containing_block, 0)),
{
    let mut cb = containing_block;
    cb.content.height = 0;
    let mut root = build_layout_tree(node);
    let ghost built = root;
    root.layout(cb);
    assert(cb == with_height(containing_block, 0));
    assert(is_layout_tree(built, *node) && is_laid_out(root, built, with_height(containing_block, 0)));
    root
}

proof fn lemma_groups_shown(in_block: bool, kids: Seq<StyledNode>)
    ensures
        forall|j: int, k: int|
            0 <= j < groups(in_block, kids).len() && 0 <= k < groups(in_block, kids)[j].1.len()
                ==> 0 <= #[trigger] groups(in_block, kids)[j].1[k] < kids.len() && display_of(
                kids[groups(in_block, kids)[j].1[k]].specified_values@,
            ) != Display::Hidden,
    decreases kids.len(),
{
    if kids.len() > 0 {
        let pre = kids.drop_last();
        lemma_groups_shown(in_block, pre);
        let g = groups(in_block, pre);
        let r = groups(in_block, kids);
        let i = kids.len() - 1;
        assert forall|j: int, k: int|
            0 <= j < r.len() && 0 <= k < r[j].1.len() implies 0 <= #[trigger] r[j].1[k] < kids.len()
            && display_of(kids[r[j].1[k]].specified_values@) != Display::Hidden by {
            if j < g.len() && k < g[j].1.len() {
                assert(r[j].1[k] == g[j].1[k]);
                assert(kids[g[j].1[k]] == pre[g[j].1[k]]);
            } else {
                assert(r[j].1[k] == i);
            }
        }
    }
}

/// How the children of `s` are grouped into the boxes of its layout box.
pub open spec fn child_groups(s: StyledNode) -> Seq<(bool, Seq<int>)> {
    groups(display_of(s.specified_values@) == Display::Block, s.children@)
}

/// A child with display `none` gets no box: no group of the children of
/// `s`, and so no box of `b` or of its anonymous blocks, stands for it
/// (and none for its descendants, which are reached only through it).
pub proof fn lemma_hidden_child_has_no_box(b: LayoutBox, s: StyledNode, h: int)
    requires
        is_layout_tree(b, s),
        0 <= h < s.children.len(),
        display_of(s.children@[h].specified_values@) == Display::Hidden,
    ensures
        forall|j: int, k: int|
            0 <= j < b.children.len() && 0 <= k < child_groups(s)[j].1.len()
                ==> #[trigger] child_groups(s)[j].1[k] != h,
{
    lemma_groups_shown(display_of(s.specified_values@) == Display::Block, s.children@);
}

proof fn lemma_inline_run(kids: Seq<StyledNode>)
    requires
        kids.len() >= 1,
        forall|k: int| 0 <= k < kids.len() ==> display_of(#[trigger] kids[k].specified_values@) == Display::Inline,
    ensures
        groups(true, kids) == seq![(true, Seq::new(kids.len(), |k: int| k))],
    decreases kids.len(),
{
    let pre = kids.drop_last();
    assert(display_of(kids[kids.len() - 1].specified_values@) == Display::Inline);
    if kids.len() == 1 {
        assert(pre =~= Seq::<StyledNode>::empty());
        assert(groups(true, pre) == Seq::<(bool, Seq<int>)>::empty());
        assert(Seq::new(1, |k: int| k) =~= seq![0int]);
    } else {
        assert forall|k: int| 0 <= k < pre.len() implies display_of(#[trigger] pre[k].specified_values@) == Display::Inline by {
            assert(pre[k] == kids[k]);
        }
        lemma_inline_run(pre);
        let g = groups(true, pre);
        assert(g.len() == 1 && g.last().0);
        assert(g.last().1 == Seq::new(pre.len(), |k: int| k));
        assert(Seq::new(pre.len(), |k: int| k).push(kids.len() - 1) =~= Seq::new(kids.len(), |k: int| k));
        assert(seq![(true, Seq::new(pre.len(), |k: int| k))].update(0, (true, Seq::new(kids.len(), |k: int| k)))
            =~= seq![(true, Seq::new(kids.len(), |k: int| k))]);
    }
}

/// Consecutive inline children of a block share one anonymous block: a
/// block whose children are all inline has exactly one child box, an
/// anonymous block holding the boxes of all of them in order.
pub proof fn lemma_inline_children_coalesce(b: LayoutBox, s: StyledNode)
    requires
        is_layout_tree(b, s),
        display_of(s.specified_values@) == Display::Block,
        s.children.len() >= 1,
        forall|k: int|
            0 <= k < s.children.len() ==> display_of(#[trigger] s.children@[k].specified_values@)
                == Display::Inline,
    ensures
        b.children.len() == 1,
        b.children@[0].box_type is AnonymousBlock,
        b.children@[0].children.len() == s.children.len(),
        forall|k: int|
            0 <= k < s.children.len() ==> is_layout_tree(
                #[trigger] b.children@[0].children@[k],
                s.children@[k],
            ),
{
    lemma_inline_run(s.children@);
    let g = groups(true, s.children@);
    assert(g[0].1 == Seq::new(s.children.len() as nat, |k: int| k));
    let c = b.children@[0];
    assert forall|k: int| 0 <= k < s.children.len() implies is_layout_tree(
        #[trigger] b.children@[0].children@[k],
        s.children@[k],
    ) by {
        assert(g[0].1[k] == k);
    }
}

proof fn lemma_resolve_width_sum(
    cbw: int,
    w_auto: bool,
    w: int,
    ml_auto: bool,
    ml: int,
    mr_auto: bool,
    mr: int,
    edges: int,
)
    requires
        w_auto ==> w == 0,
        ml_auto ==> ml == 0,
        mr_auto ==> mr == 0,
    ensures
        resolve_width(cbw, w_auto, w, ml_auto, ml, mr_auto, mr, edges).0 + resolve_width(
            cbw,
            w_auto,
            w,
            ml_auto,
            ml,
            mr_auto,
            mr,
            edges,
        ).1 + resolve_width(cbw, w_auto, w, ml_auto, ml, mr_auto, mr, edges).2 + edges == cbw,
{
}

/// Box geometry is consistent: the margin box of any box is its border box
/// plus its left and right margins, and the border box is its content plus
/// left and right padding and border. A block box laid out in a containing
/// block (of width within 2^62 pixels) fills exactly its width with its
/// margin box.
pub proof fn lemma_geometry(b: LayoutBox, old: LayoutBox, cb: Dimensions)
    requires
        is_laid_out(b, old, cb),
    ensures
        margin_box_width(b.dimensions) == border_box_width(b.dimensions) + b.dimensions.margin.left
            + b.dimensions.margin.right,
        border_box_width(b.dimensions) == b.dimensions.content.width + b.dimensions.padding.left
            + b.dimensions.padding.right + b.dimensions.border.left + b.dimensions.border.right,
        (old.box_type is BlockNode && -0x4000_0000_0000_0000 <= cb.content.width
            <= 0x4000_0000_0000_0000) ==> margin_box_width(b.dimensions) == cb.content.width,
{
    reveal(is_laid_out);
    match old.box_type {
        BoxType::BlockNode(n) => {
            if -0x4000_0000_0000_0000 <= cb.content.width <= 0x4000_0000_0000_0000 {
                let m = n.specified_values@;
                let wv = value_of(m, "width"@);
                let mlv = lookup_of(m, "margin-left"@, "margin"@, zero_length());
                let mrv = lookup_of(m, "margin-right"@, "margin"@, zero_length());
                let edges = side(m, "border-left-width"@, "border-width"@) + side(m, "border-right-width"@, "border-width"@)
                    + side(m, "padding-left"@, "padding"@) + side(m, "padding-right"@, "padding"@);
                lemma_resolve_width_sum(
                    cb.content.width as int,
                    match wv {
                        Some(v) => is_auto_value(v),
                        None => true,
                    },
                    match wv {
                        Some(v) => px_of(v),
                        None => 0,
                    },
                    is_auto_value(mlv),
                    px_of(mlv),
                    is_auto_value(mrv),
                    px_of(mrv),
                    edges,
                );
            }
        },
        _ => {},
    }
}

} // verus!
