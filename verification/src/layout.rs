//! Block layout: building the layout-box tree from the styled tree
//! (with anonymous blocks wrapping inline runs inside block parents), and
//! the four-phase block layout solver — width resolution, position
//! resolution, children layout with vertical stacking, height resolution.
//!
//! The whole computation is mirrored by spec functions over unbounded
//! integers; the executable solver is proved to compute exactly that
//! mirror, under a precondition saying the mirrored result stays within
//! machine-integer range.

use vstd::prelude::*;

use crate::css_parser::{Unit, Value, MAX_PX};
use crate::style::{
    display_of, lookup_spec, styled_view, styled_wf, Display, GStyled, PropertyMap, StyledNode,
};
use crate::PipelineError;

verus! {

/// Bound on every coordinate and length of a laid-out box tree; the
/// layout preconditions keep all arithmetic within this range.
pub const DIM_LIMIT: i64 = 0x1000_0000_0000;

/// Coarser bound under which a rectangle may still be grown by edges
/// without leaving machine-integer range.
pub const EXPAND_LIMIT: i64 = 0x40_0000_0000_0000;

/// A rectangle in abstract (integral) pixel units.
#[derive(Debug, Clone, Copy, PartialEq, Eq, Structural)]
pub struct Rectangle {
    pub x: i64,
    pub y: i64,
    pub width: i64,
    pub height: i64,
}

/// Edge sizes around a rectangle.
#[derive(Debug, Clone, Copy, PartialEq, Eq, Structural)]
pub struct EdgeSizes {
    pub left: i64,
    pub right: i64,
    pub top: i64,
    pub bottom: i64,
}

/// Box-model geometry: the content rectangle and the surrounding
/// padding, border and margin edge sizes.
#[derive(Debug, Clone, Copy, PartialEq, Eq, Structural)]
pub struct Dimensions {
    pub content: Rectangle,
    pub padding: EdgeSizes,
    pub border: EdgeSizes,
    pub margin: EdgeSizes,
}

/// Ghost rectangle over unbounded integers.
#[verifier::ext_equal]
pub struct GRect {
    pub x: int,
    pub y: int,
    pub width: int,
    pub height: int,
}

/// Ghost edge sizes over unbounded integers.
#[verifier::ext_equal]
pub struct GEdges {
    pub left: int,
    pub right: int,
    pub top: int,
    pub bottom: int,
}

/// Ghost box-model geometry.
#[verifier::ext_equal]
pub struct GDims {
    pub content: GRect,
    pub padding: GEdges,
    pub border: GEdges,
    pub margin: GEdges,
}

impl View for Rectangle {
    type V = GRect;

    open spec fn view(&self) -> GRect {
        GRect { x: self.x as int, y: self.y as int, width: self.width as int, height: self.height as int }
    }
}

impl View for EdgeSizes {
    type V = GEdges;

    open spec fn view(&self) -> GEdges {
        GEdges {
            left: self.left as int,
            right: self.right as int,
            top: self.top as int,
            bottom: self.bottom as int,
        }
    }
}

impl View for Dimensions {
    type V = GDims;

    open spec fn view(&self) -> GDims {
        GDims {
            content: self.content@,
            padding: self.padding@,
            border: self.border@,
            margin: self.margin@,
        }
    }
}

/// The all-zero rectangle.
pub open spec fn grect_zero() -> GRect {
    GRect { x: 0, y: 0, width: 0, height: 0 }
}

/// The all-zero edge sizes.
pub open spec fn gedges_zero() -> GEdges {
    GEdges { left: 0, right: 0, top: 0, bottom: 0 }
}

/// The all-zero geometry.
pub open spec fn gdims_zero() -> GDims {
    GDims { content: grect_zero(), padding: gedges_zero(), border: gedges_zero(), margin: gedges_zero() }
}

impl Default for Rectangle {
    /// The zero rectangle.
    fn default() -> (r: Self)
        ensures
            r@ == grect_zero(),
    {
        Rectangle { x: 0, y: 0, width: 0, height: 0 }
    }
}

impl Default for EdgeSizes {
    /// Zero on every side.
    fn default() -> (r: Self)
        ensures
            r@ == gedges_zero(),
    {
        EdgeSizes { left: 0, right: 0, top: 0, bottom: 0 }
    }
}

impl Default for Dimensions {
    /// The zero geometry.
    fn default() -> (r: Self)
        ensures
            r@ == gdims_zero(),
    {
        Dimensions {
            content: Rectangle::default(),
            padding: EdgeSizes::default(),
            border: EdgeSizes::default(),
            margin: EdgeSizes::default(),
        }
    }
}

/// A rectangle grown outward by edge sizes.
pub open spec fn expand_spec(r: GRect, e: GEdges) -> GRect {
    GRect {
        x: r.x - e.left,
        y: r.y - e.top,
        width: r.width + e.left + e.right,
        height: r.height + e.top + e.bottom,
    }
}

/// The padding box of a geometry: content grown by the padding.
pub open spec fn padding_box_spec(d: GDims) -> GRect {
    expand_spec(d.content, d.padding)
}

/// The border box: the padding box grown by the border widths.
pub open spec fn border_box_spec(d: GDims) -> GRect {
    expand_spec(padding_box_spec(d), d.border)
}

/// The margin box: the border box grown by the margins.
pub open spec fn margin_box_spec(d: GDims) -> GRect {
    expand_spec(border_box_spec(d), d.margin)
}

/// All fields of a rectangle within the given bound.
pub open spec fn grect_bounded(r: GRect, b: int) -> bool {
    &&& -b <= r.x <= b
    &&& -b <= r.y <= b
    &&& -b <= r.width <= b
    &&& -b <= r.height <= b
}

/// All edge sizes within the given bound.
pub open spec fn gedges_bounded(e: GEdges, b: int) -> bool {
    &&& -b <= e.left <= b
    &&& -b <= e.right <= b
    &&& -b <= e.top <= b
    &&& -b <= e.bottom <= b
}

/// All sixteen fields of a geometry within the given bound.
pub open spec fn gdims_bounded(d: GDims, b: int) -> bool {
    &&& grect_bounded(d.content, b)
    &&& gedges_bounded(d.padding, b)
    &&& gedges_bounded(d.border, b)
    &&& gedges_bounded(d.margin, b)
}

impl Rectangle {
    /// Grow the rectangle outward by the given edge sizes.
    pub fn expanded_by(self, edge: EdgeSizes) -> (r: Rectangle)
        requires
            grect_bounded(self@, EXPAND_LIMIT as int),
            gedges_bounded(edge@, EXPAND_LIMIT as int),
        ensures
            r@ == expand_spec(self@, edge@),
    {
        Rectangle {
            x: self.x - edge.left,
            y: self.y - edge.top,
            width: self.width + edge.left + edge.right,
            height: self.height + edge.top + edge.bottom,
        }
    }
}

impl Dimensions {
    /// The area covered by the content area plus its padding.
    pub fn padding_box(self) -> (r: Rectangle)
        requires
            gdims_bounded(self@, 8 * DIM_LIMIT as int),
        ensures
            r@ == padding_box_spec(self@),
    {
        self.content.expanded_by(self.padding)
    }

    /// The area covered by the content area plus padding and borders.
    pub fn border_box(self) -> (r: Rectangle)
        requires
            gdims_bounded(self@, 8 * DIM_LIMIT as int),
        ensures
            r@ == border_box_spec(self@),
    {
        self.padding_box().expanded_by(self.border)
    }

    /// The area covered by the content area plus padding, borders and margin.
    pub fn margin_box(self) -> (r: Rectangle)
        requires
            gdims_bounded(self@, 8 * DIM_LIMIT as int),
        ensures
            r@ == margin_box_spec(self@),
    {
        self.border_box().expanded_by(self.margin)
    }
}

/// What kind of box a layout node is: a block-level or inline-level box
/// carrying the properties of the styled node it came from, or a synthetic
/// anonymous block holding an inline run.
#[derive(Debug)]
pub enum BoxType {
    BlockNode(PropertyMap),
    InlineNode(PropertyMap),
    AnonymousBlock,
}

/// A node of the layout tree.
#[derive(Debug)]
pub struct LayoutBox {
    pub dimensions: Dimensions,
    pub box_type: BoxType,
    pub children: Vec<LayoutBox>,
}

/// Ghost mirror of a box kind.
#[verifier::ext_equal]
pub enum GBoxType {
    Block(Map<Seq<char>, Value>),
    Inline(Map<Seq<char>, Value>),
    Anonymous,
}

/// Ghost mirror of a layout tree.
#[verifier::ext_equal]
pub struct GBox {
    pub ty: GBoxType,
    pub dims: GDims,
    pub children: Seq<GBox>,
}

/// The abstract value of a layout box.
pub open spec fn box_view(b: LayoutBox) -> GBox
    decreases b,
{
    GBox {
        ty: match b.box_type {
            BoxType::BlockNode(style) => GBoxType::Block(style@),
            BoxType::InlineNode(style) => GBoxType::Inline(style@),
            BoxType::AnonymousBlock => GBoxType::Anonymous,
        },
        dims: b.dimensions@,
        children: Seq::new(
            b.children@.len(),
            |i: int|
                if 0 <= i < b.children@.len() {
                    box_view(b.children@[i])
                } else {
                    arbitrary()
                },
        ),
    }
}

/// The abstract values of a run of layout boxes.
pub open spec fn box_views(s: Seq<LayoutBox>) -> Seq<GBox> {
    Seq::new(
        s.len(),
        |i: int|
            if 0 <= i < s.len() {
                box_view(s[i])
            } else {
                arbitrary()
            },
    )
}

/// Every property map in a layout tree is well-formed.
pub open spec fn box_wf(b: LayoutBox) -> bool
    decreases b,
{
    &&& match b.box_type {
        BoxType::BlockNode(style) => style.wf(),
        BoxType::InlineNode(style) => style.wf(),
        BoxType::AnonymousBlock => true,
    }
    &&& forall|i: int| 0 <= i < b.children@.len() ==> box_wf(#[trigger] b.children@[i])
}

/// Append an inline-level box to a block parent's child run: it goes into
/// a trailing anonymous block, which is created unless one already ends
/// the run; inside an inline or anonymous parent it is appended directly.
pub open spec fn append_inline(cs: Seq<GBox>, b: GBox, parent_block: bool) -> Seq<GBox> {
    if !parent_block {
        cs.push(b)
    } else if cs.len() > 0 && cs.last().ty is Anonymous {
        cs.update(
            cs.len() - 1,
            GBox { ty: GBoxType::Anonymous, dims: cs.last().dims, children: cs.last().children.push(b) },
        )
    } else {
        cs.push(GBox { ty: GBoxType::Anonymous, dims: gdims_zero(), children: seq![b] })
    }
}

/// The layout boxes produced by the first `n` children of a styled node:
/// hidden children are dropped, block children appended directly, inline
/// children routed through `append_inline`.
pub open spec fn build_children_spec(cs: Seq<GStyled>, n: int, parent_block: bool) -> Seq<GBox>
    decreases cs, n,
{
    if n <= 0 || n > cs.len() {
        Seq::empty()
    } else {
        let prev = build_children_spec(cs, n - 1, parent_block);
        let s = cs[n - 1];
        match display_of(s.values) {
            Display::Hidden => prev,
            Display::Block => prev.push(build_box_spec(s)),
            Display::Inline => append_inline(prev, build_box_spec(s), parent_block),
        }
    }
}

/// The layout box a styled node produces: a block or inline box with zero
/// geometry whose children are built by `build_children_spec`.
pub open spec fn build_box_spec(s: GStyled) -> GBox
    decreases s, 0int,
{
    let block = display_of(s.values) is Block;
    GBox {
        ty: if block {
            GBoxType::Block(s.values)
        } else {
            GBoxType::Inline(s.values)
        },
        dims: gdims_zero(),
        children: build_children_spec(s.children, s.children.len() as int, block),
    }
}

/// The zero-pixel length.
pub open spec fn zero_len() -> Value {
    Value::Length(0, Unit::Px)
}

/// The pixel size a property resolves to under shorthand fallback, zero
/// when neither property is present.
pub open spec fn used_px(vals: Map<Seq<char>, Value>, name: Seq<char>, fallback: Seq<char>) -> int {
    lookup_spec(vals, name, fallback, zero_len()).spec_to_px() as int
}

/// Whether the `width` property is the keyword `auto` or absent.
pub open spec fn width_is_auto(vals: Map<Seq<char>, Value>) -> bool {
    if vals.contains_key("width"@) {
        vals["width"@].spec_is_auto()
    } else {
        true
    }
}

/// The pixel width named by `width`, zero for `auto` and other keywords.
pub open spec fn width_px(vals: Map<Seq<char>, Value>) -> int {
    if vals.contains_key("width"@) {
        vals["width"@].spec_to_px() as int
    } else {
        0
    }
}

/// The horizontal box-model values a block resolves to.
#[verifier::ext_equal]
pub struct GWidths {
    pub width: int,
    pub margin_left: int,
    pub margin_right: int,
    pub padding_left: int,
    pub padding_right: int,
    pub border_left: int,
    pub border_right: int,
}

/// The CSS block-width constraint algorithm over unbounded integers.
///
/// All box-model components are summed (`auto` counting as zero); when the
/// declared width is fixed and the sum overflows the containing width,
/// auto margins are frozen at zero. The leftover `underflow` is then
/// distributed: to the right margin when everything is fixed, to a single
/// auto margin, evenly to two auto margins (the right one taking the odd
/// pixel), or to an auto width — which never goes negative; a deficit
/// moves into the right margin instead. In every case the seven box-model
/// components sum to the containing width (`lemma_width_sum_invariant`).
pub open spec fn calc_width_spec(vals: Map<Seq<char>, Value>, cbw: int) -> GWidths {
    let w_auto = width_is_auto(vals);
    let w0 = width_px(vals);
    let mlv = lookup_spec(vals, "margin-left"@, "margin"@, zero_len());
    let mrv = lookup_spec(vals, "margin-right"@, "margin"@, zero_len());
    let ml0 = mlv.spec_to_px() as int;
    let mr0 = mrv.spec_to_px() as int;
    let pl = used_px(vals, "padding-left"@, "padding"@);
    let pr = used_px(vals, "padding-right"@, "padding"@);
    let bl = used_px(vals, "border-left-width"@, "border"@);
    let br = used_px(vals, "border-right-width"@, "border"@);
    let total = ml0 + mr0 + pl + pr + bl + br + w0;
    let over = !w_auto && total > cbw;
    let ml_auto = mlv.spec_is_auto() && !over;
    let mr_auto = mrv.spec_is_auto() && !over;
    let underflow = cbw - total;
    if !w_auto {
        if !ml_auto && !mr_auto {
            GWidths {
                width: w0,
                margin_left: ml0,
                margin_right: mr0 + underflow,
                padding_left: pl,
                padding_right: pr,
                border_left: bl,
                border_right: br,
            }
        } else if !ml_auto && mr_auto {
            GWidths {
                width: w0,
                margin_left: ml0,
                margin_right: underflow,
                padding_left: pl,
                padding_right: pr,
                border_left: bl,
                border_right: br,
            }
        } else if ml_auto && !mr_auto {
            GWidths {
                width: w0,
                margin_left: underflow,
                margin_right: mr0,
                padding_left: pl,
                padding_right: pr,
                border_left: bl,
                border_right: br,
            }
        } else {
            GWidths {
                width: w0,
                margin_left: underflow / 2,
                margin_right: underflow - underflow / 2,
                padding_left: pl,
                padding_right: pr,
                border_left: bl,
                border_right: br,
            }
        }
    } else {
        let ml1 = if mlv.spec_is_auto() {
            0int
        } else {
            ml0
        };
        let mr1 = if mrv.spec_is_auto() {
            0int
        } else {
            mr0
        };
        if underflow >= 0 {
            GWidths {
                width: underflow,
                margin_left: ml1,
                margin_right: mr1,
                padding_left: pl,
                padding_right: pr,
                border_left: bl,
                border_right: br,
            }
        } else {
            GWidths {
                width: 0,
                margin_left: ml1,
                margin_right: mr1 + underflow,
                padding_left: pl,
                padding_right: pr,
                border_left: bl,
                border_right: br,
            }
        }
    }
}

/// The vertical box-model values and the content position of a block.
#[verifier::ext_equal]
pub struct GPos {
    pub x: int,
    pub y: int,
    pub margin_top: int,
    pub margin_bottom: int,
    pub border_top: int,
    pub border_bottom: int,
    pub padding_top: int,
    pub padding_bottom: int,
}

/// Position resolution: vertical margins, borders and paddings resolve by
/// shorthand fallback (vertical auto margins count as zero); the content
/// origin sits inside the containing block's content box, below its
/// accumulated content height.
pub open spec fn calc_position_spec(vals: Map<Seq<char>, Value>, cb: GDims, w: GWidths) -> GPos {
    let mt = used_px(vals, "margin-top"@, "margin"@);
    let mb = used_px(vals, "margin-bottom"@, "margin"@);
    let bt = used_px(vals, "border-top-width"@, "border-width"@);
    let bb = used_px(vals, "border-bottom-width"@, "border-width"@);
    let pt = used_px(vals, "padding-top"@, "padding"@);
    let pb = used_px(vals, "padding-bottom"@, "padding"@);
    GPos {
        x: cb.content.x + w.margin_left + w.border_left + w.padding_left,
        y: cb.content.height + cb.content.y + mt + bt + pt,
        margin_top: mt,
        margin_bottom: mb,
        border_top: bt,
        border_bottom: bb,
        padding_top: pt,
        padding_bottom: pb,
    }
}

/// The geometry a block resolves to before its children are laid out:
/// width and position resolved, content height zero.
pub open spec fn block_dims_spec(vals: Map<Seq<char>, Value>, cb: GDims) -> GDims {
    let w = calc_width_spec(vals, cb.content.width);
    let pos = calc_position_spec(vals, cb, w);
    GDims {
        content: GRect { x: pos.x, y: pos.y, width: w.width, height: 0 },
        padding: GEdges {
            left: w.padding_left,
            right: w.padding_right,
            top: pos.padding_top,
            bottom: pos.padding_bottom,
        },
        border: GEdges {
            left: w.border_left,
            right: w.border_right,
            top: pos.border_top,
            bottom: pos.border_bottom,
        },
        margin: GEdges {
            left: w.margin_left,
            right: w.margin_right,
            top: pos.margin_top,
            bottom: pos.margin_bottom,
        },
    }
}

/// An explicit pixel `height`, when declared.
pub open spec fn height_override(vals: Map<Seq<char>, Value>) -> Option<int> {
    if vals.contains_key("height"@) {
        match vals["height"@] {
            Value::Length(h, Unit::Px) => Some(h as int),
            _ => None,
        }
    } else {
        None
    }
}

/// Lay out the first `n` children of a block whose own geometry is `d`:
/// each child is laid out against `d` with the height accumulated so far,
/// and contributes its full margin-box height to the accumulation. Returns
/// the laid-out children and the final accumulated content height.
pub open spec fn layout_children_spec(cs: Seq<GBox>, n: int, d: GDims) -> (Seq<GBox>, int)
    decreases cs, n,
{
    if n <= 0 || n > cs.len() {
        (Seq::empty(), d.content.height)
    } else {
        let prev = layout_children_spec(cs, n - 1, d);
        let dk = GDims {
            content: GRect { x: d.content.x, y: d.content.y, width: d.content.width, height: prev.1 },
            padding: d.padding,
            border: d.border,
            margin: d.margin,
        };
        let laid = layout_spec(cs[n - 1], dk);
        (prev.0.push(laid), prev.1 + margin_box_spec(laid.dims).height)
    }
}

/// Block layout of one box against its containing block's geometry:
/// width resolution, then position, then children with vertical stacking,
/// then height — an explicit pixel height overrides the accumulated one.
/// Inline and anonymous boxes are not laid out in this engine: the box and
/// its subtree pass through unchanged.
pub open spec fn layout_spec(b: GBox, cb: GDims) -> GBox
    decreases b, 0int,
{
    match b.ty {
        GBoxType::Block(vals) => {
            let d0 = block_dims_spec(vals, cb);
            let pair = layout_children_spec(b.children, b.children.len() as int, d0);
            let h = match height_override(vals) {
                Some(hh) => hh,
                None => pair.1,
            };
            GBox {
                ty: b.ty,
                dims: GDims {
                    content: GRect { x: d0.content.x, y: d0.content.y, width: d0.content.width, height: h },
                    padding: d0.padding,
                    border: d0.border,
                    margin: d0.margin,
                },
                children: pair.0,
            }
        },
        GBoxType::Inline(_) => b,
        GBoxType::Anonymous => b,
    }
}

/// Every declared pixel length within `MAX_PX`.
pub open spec fn styles_ok(vals: Map<Seq<char>, Value>) -> bool {
    forall|k: Seq<char>|
        #[trigger] vals.contains_key(k) ==> -(MAX_PX as int) <= vals[k].spec_to_px()
            <= MAX_PX as int
}

/// A containing block's content box within `DIM_LIMIT`.
pub open spec fn cb_ok(cb: GDims) -> bool {
    grect_bounded(cb.content, DIM_LIMIT as int)
}

/// The layout of the first `n` children of a block with geometry `d`
/// stays within `DIM_LIMIT`: each child's layout fits against its
/// containing block, and each accumulated height stays bounded.
pub open spec fn children_fit(cs: Seq<GBox>, n: int, d: GDims) -> bool
    decreases cs, n,
{
    if n <= 0 || n > cs.len() {
        true
    } else {
        let prev = layout_children_spec(cs, n - 1, d);
        let dk = GDims {
            content: GRect { x: d.content.x, y: d.content.y, width: d.content.width, height: prev.1 },
            padding: d.padding,
            border: d.border,
            margin: d.margin,
        };
        &&& children_fit(cs, n - 1, d)
        &&& layout_fits(cs[n - 1], dk)
        &&& -(DIM_LIMIT as int) <= prev.1 + margin_box_spec(layout_spec(cs[n - 1], dk).dims).height
            <= DIM_LIMIT as int
    }
}

/// The layout of a box against a containing block stays within
/// `DIM_LIMIT`: for a block box, the declared lengths, the containing
/// block, the resolved position and every child fit; a box that is not
/// laid out carries geometry already within range.
pub open spec fn layout_fits(b: GBox, cb: GDims) -> bool
    decreases b, 0int,
{
    match b.ty {
        GBoxType::Block(vals) => {
            let d0 = block_dims_spec(vals, cb);
            &&& styles_ok(vals)
            &&& cb_ok(cb)
            &&& -(DIM_LIMIT as int) <= d0.content.x <= DIM_LIMIT as int
            &&& -(DIM_LIMIT as int) <= d0.content.y <= DIM_LIMIT as int
            &&& children_fit(b.children, b.children.len() as int, d0)
        },
        GBoxType::Inline(_) => gdims_bounded(b.dims, DIM_LIMIT as int),
        GBoxType::Anonymous => gdims_bounded(b.dims, DIM_LIMIT as int),
    }
}

/// Resolved horizontal box-model values of a block.
#[derive(Debug, Clone, Copy, PartialEq, Eq, Structural)]
pub struct BlockWidths {
    pub width: i64,
    pub margin_left: i64,
    pub margin_right: i64,
    pub padding_left: i64,
    pub padding_right: i64,
    pub border_left: i64,
    pub border_right: i64,
}

impl View for BlockWidths {
    type V = GWidths;

    open spec fn view(&self) -> GWidths {
        GWidths {
            width: self.width as int,
            margin_left: self.margin_left as int,
            margin_right: self.margin_right as int,
            padding_left: self.padding_left as int,
            padding_right: self.padding_right as int,
            border_left: self.border_left as int,
            border_right: self.border_right as int,
        }
    }
}

/// Resolved vertical box-model values and content origin of a block.
#[derive(Debug, Clone, Copy, PartialEq, Eq, Structural)]
pub struct BlockPosition {
    pub x: i64,
    pub y: i64,
    pub margin_top: i64,
    pub margin_bottom: i64,
    pub border_top: i64,
    pub border_bottom: i64,
    pub padding_top: i64,
    pub padding_bottom: i64,
}

impl View for BlockPosition {
    type V = GPos;

    open spec fn view(&self) -> GPos {
        GPos {
            x: self.x as int,
            y: self.y as int,
            margin_top: self.margin_top as int,
            margin_bottom: self.margin_bottom as int,
            border_top: self.border_top as int,
            border_bottom: self.border_bottom as int,
            padding_top: self.padding_top as int,
            padding_bottom: self.padding_bottom as int,
        }
    }
}

/// A property under shorthand fallback resolves within `MAX_PX` when every
/// declared length does.
pub proof fn lemma_lookup_bounded(vals: Map<Seq<char>, Value>, n: Seq<char>, f: Seq<char>)
    requires
        styles_ok(vals),
    ensures
        -(MAX_PX as int) <= lookup_spec(vals, n, f, zero_len()).spec_to_px() <= MAX_PX as int,
{
    if vals.contains_key(n) {
    } else if vals.contains_key(f) {
    }
}

/// All resolved width-phase values stay within `DIM_LIMIT + 9 * MAX_PX`.
pub proof fn lemma_width_bounds(vals: Map<Seq<char>, Value>, cbw: int)
    requires
        styles_ok(vals),
        -(DIM_LIMIT as int) <= cbw <= DIM_LIMIT as int,
    ensures
        ({
            let w = calc_width_spec(vals, cbw);
            let b = DIM_LIMIT as int + 9 * MAX_PX as int;
            &&& -b <= w.width <= b
            &&& -b <= w.margin_left <= b
            &&& -b <= w.margin_right <= b
            &&& -(MAX_PX as int) <= w.padding_left <= MAX_PX as int
            &&& -(MAX_PX as int) <= w.padding_right <= MAX_PX as int
            &&& -(MAX_PX as int) <= w.border_left <= MAX_PX as int
            &&& -(MAX_PX as int) <= w.border_right <= MAX_PX as int
        }),
{
    lemma_lookup_bounded(vals, "margin-left"@, "margin"@);
    lemma_lookup_bounded(vals, "margin-right"@, "margin"@);
    lemma_lookup_bounded(vals, "padding-left"@, "padding"@);
    lemma_lookup_bounded(vals, "padding-right"@, "padding"@);
    lemma_lookup_bounded(vals, "border-left-width"@, "border"@);
    lemma_lookup_bounded(vals, "border-right-width"@, "border"@);
    if vals.contains_key("width"@) {
    }
}

/// Look a property up under its shorthand fallback, defaulting to zero
/// pixels.
fn lookup_with_default(style: &PropertyMap, name: &str, fallback: &str) -> (r: Value)
    requires
        style.wf(),
    ensures
        r == lookup_spec(style@, name@, fallback@, zero_len()),
{
    match style.get(name) {
        Some(v) => v.clone(),
        None => match style.get(fallback) {
            Some(v) => v.clone(),
            None => Value::Length(0, Unit::Px),
        },
    }
}

/// Width resolution (the first block layout phase), exactly the
/// constraint algorithm of `calc_width_spec`.
#[verifier::loop_isolation(false)]
pub fn calc_block_width(style: &PropertyMap, containing_block: &Dimensions) -> (r: BlockWidths)
    requires
        style.wf(),
        styles_ok(style@),
        -(DIM_LIMIT as int) <= containing_block@.content.width <= DIM_LIMIT as int,
    ensures
        r@ == calc_width_spec(style@, containing_block@.content.width),
{
    proof {
        lemma_lookup_bounded(style@, "margin-left"@, "margin"@);
        lemma_lookup_bounded(style@, "margin-right"@, "margin"@);
        lemma_lookup_bounded(style@, "padding-left"@, "padding"@);
        lemma_lookup_bounded(style@, "padding-right"@, "padding"@);
        lemma_lookup_bounded(style@, "border-left-width"@, "border"@);
        lemma_lookup_bounded(style@, "border-right-width"@, "border"@);
    }
    // `width` has initial value `auto`.
    let w_auto: bool = match style.get("width") {
        Some(v) => v.is_auto(),
        None => true,
    };
    let w0: i64 = match style.get("width") {
        Some(v) => v.to_px(),
        None => 0,
    };
    let margin_left = lookup_with_default(style, "margin-left", "margin");
    let margin_right = lookup_with_default(style, "margin-right", "margin");
    let padding_left = lookup_with_default(style, "padding-left", "padding");
    let padding_right = lookup_with_default(style, "padding-right", "padding");
    let border_left = lookup_with_default(style, "border-left-width", "border");
    let border_right = lookup_with_default(style, "border-right-width", "border");
    let ml0 = margin_left.to_px();
    let mr0 = margin_right.to_px();
    let pl = padding_left.to_px();
    let pr = padding_right.to_px();
    let bl = border_left.to_px();
    let br = border_right.to_px();
    let total = ml0 + mr0 + pl + pr + bl + br + w0;
    // Over-constrained: a fixed width wider than the containing block
    // freezes auto margins at zero length.
    let over = !w_auto && total > containing_block.content.width;
    let ml_auto = margin_left.is_auto() && !over;
    let mr_auto = margin_right.is_auto() && !over;
    let underflow = containing_block.content.width - total;
    let (width, ml, mr): (i64, i64, i64) = if !w_auto {
        if !ml_auto && !mr_auto {
            // Everything fixed: the right margin absorbs the underflow.
            (w0, ml0, mr0 + underflow)
        } else if !ml_auto && mr_auto {
            (w0, ml0, underflow)
        } else if ml_auto && !mr_auto {
            (w0, underflow, mr0)
        } else {
            // Both margins auto: split the underflow evenly; on an odd
            // underflow the right margin takes the extra pixel, so the
            // box-model components still sum to the containing width.
            proof {
                assert(underflow >= 0);
            }
            (w0, underflow / 2, underflow - underflow / 2)
        }
    } else {
        // Auto width: auto margins become zero first.
        let ml1: i64 = if margin_left.is_auto() {
            0
        } else {
            ml0
        };
        let mr1: i64 = if margin_right.is_auto() {
            0
        } else {
            mr0
        };
        if underflow >= 0 {
            // Expand the width to fill the underflow.
            (underflow, ml1, mr1)
        } else {
            // Width can never be negative: the deficit moves into the
            // right margin instead.
            (0, ml1, mr1 + underflow)
        }
    };
    let r = BlockWidths {
        width,
        margin_left: ml,
        margin_right: mr,
        padding_left: pl,
        padding_right: pr,
        border_left: bl,
        border_right: br,
    };
    proof {
        assert(r@ =~= calc_width_spec(style@, containing_block@.content.width));
    }
    r
}

/// Position resolution (the second block layout phase), exactly
/// `calc_position_spec`: vertical edges resolve by fallback and the
/// content origin stacks below the containing block's accumulated height.
#[verifier::loop_isolation(false)]
pub fn calc_block_position(
    style: &PropertyMap,
    containing_block: &Dimensions,
    widths: &BlockWidths,
) -> (r: BlockPosition)
    requires
        style.wf(),
        styles_ok(style@),
        cb_ok(containing_block@),
        widths@ == calc_width_spec(style@, containing_block@.content.width),
    ensures
        r@ == calc_position_spec(style@, containing_block@, widths@),
{
    proof {
        lemma_width_bounds(style@, containing_block@.content.width);
        lemma_lookup_bounded(style@, "margin-top"@, "margin"@);
        lemma_lookup_bounded(style@, "margin-bottom"@, "margin"@);
        lemma_lookup_bounded(style@, "border-top-width"@, "border-width"@);
        lemma_lookup_bounded(style@, "border-bottom-width"@, "border-width"@);
        lemma_lookup_bounded(style@, "padding-top"@, "padding"@);
        lemma_lookup_bounded(style@, "padding-bottom"@, "padding"@);
    }
    let mt = lookup_with_default(style, "margin-top", "margin").to_px();
    let mb = lookup_with_default(style, "margin-bottom", "margin").to_px();
    let bt = lookup_with_default(style, "border-top-width", "border-width").to_px();
    let bb = lookup_with_default(style, "border-bottom-width", "border-width").to_px();
    let pt = lookup_with_default(style, "padding-top", "padding").to_px();
    let pb = lookup_with_default(style, "padding-bottom", "padding").to_px();
    let x = containing_block.content.x + widths.margin_left + widths.border_left
        + widths.padding_left;
    let y = containing_block.content.height + containing_block.content.y + mt + bt + pt;
    BlockPosition {
        x,
        y,
        margin_top: mt,
        margin_bottom: mb,
        border_top: bt,
        border_bottom: bb,
        padding_top: pt,
        padding_bottom: pb,
    }
}

/// Fitting children up to `n` fit up to any earlier point too.
pub proof fn lemma_children_fit_prefix(cs: Seq<GBox>, n: int, m: int, d: GDims)
    requires
        children_fit(cs, n, d),
        0 <= m <= n <= cs.len(),
    ensures
        children_fit(cs, m, d),
    decreases n,
{
    if m < n {
        lemma_children_fit_prefix(cs, n - 1, m, d);
    }
}

/// A layout that fits produces geometry within `8 * DIM_LIMIT`.
pub proof fn lemma_laid_bounded(b: GBox, cb: GDims)
    requires
        layout_fits(b, cb),
    ensures
        gdims_bounded(layout_spec(b, cb).dims, 8 * DIM_LIMIT as int),
{
    match b.ty {
        GBoxType::Block(vals) => {
            lemma_width_bounds(vals, cb.content.width);
            lemma_lookup_bounded(vals, "margin-top"@, "margin"@);
            lemma_lookup_bounded(vals, "margin-bottom"@, "margin"@);
            lemma_lookup_bounded(vals, "border-top-width"@, "border-width"@);
            lemma_lookup_bounded(vals, "border-bottom-width"@, "border-width"@);
            lemma_lookup_bounded(vals, "padding-top"@, "padding"@);
            lemma_lookup_bounded(vals, "padding-bottom"@, "padding"@);
            let d0 = block_dims_spec(vals, cb);
            let n = b.children.len() as int;
            let pair = layout_children_spec(b.children, n, d0);
            assert(-(DIM_LIMIT as int) <= pair.1 <= DIM_LIMIT as int) by {
                if n <= 0 {
                } else {
                    assert(children_fit(b.children, n, d0));
                }
            }
            if vals.contains_key("height"@) {
                assert(-(MAX_PX as int) <= vals["height"@].spec_to_px() <= MAX_PX as int);
            }
        },
        GBoxType::Inline(_) => {},
        GBoxType::Anonymous => {},
    }
}

/// Lay out a box and its subtree against the given containing block,
/// returning the box with its geometry resolved. Only block boxes are laid
/// out; inline and anonymous boxes pass through unchanged. The result is
/// exactly the mathematical layout `layout_spec` of the input.
#[verifier::loop_isolation(false)]
pub fn layout(bx: LayoutBox, containing_block: &Dimensions) -> (r: LayoutBox)
    requires
        box_wf(bx),
        layout_fits(box_view(bx), containing_block@),
    ensures
        box_wf(r),
        box_view(r) == layout_spec(box_view(bx), containing_block@),
    decreases bx,
{
    let ghost gb = box_view(bx);
    let ghost cb = containing_block@;
    let ghost whole = bx;
    let LayoutBox { dimensions, box_type, children } = bx;
    match box_type {
        BoxType::BlockNode(style) => {
            // Child width depends on parent width, so widths resolve
            // top-down, before the children.
            let widths = calc_block_width(&style, containing_block);
            let pos = calc_block_position(&style, containing_block, &widths);
            let mut d = Dimensions::default();
            d.content.x = pos.x;
            d.content.y = pos.y;
            d.content.width = widths.width;
            d.padding.left = widths.padding_left;
            d.padding.right = widths.padding_right;
            d.padding.top = pos.padding_top;
            d.padding.bottom = pos.padding_bottom;
            d.border.left = widths.border_left;
            d.border.right = widths.border_right;
            d.border.top = pos.border_top;
            d.border.bottom = pos.border_bottom;
            d.margin.left = widths.margin_left;
            d.margin.right = widths.margin_right;
            d.margin.top = pos.margin_top;
            d.margin.bottom = pos.margin_bottom;
            let ghost d0 = block_dims_spec(style@, cb);
            proof {
                assert(d@ =~= d0);
            }
            // Lay the children out in document order; each child stacks
            // below the accumulated content height of this box.
            let ghost oc = children@;
            let ghost csg = gb.children;
            let mut rest = children;
            let mut new_children: Vec<LayoutBox> = Vec::new();
            let n = rest.len();
            let mut k: usize = 0;
            proof {
                assert(rest@ =~= oc.subrange(0, n as int));
                assert(box_views(new_children@) =~= layout_children_spec(csg, 0, d0).0);
            }
            while k < n
                invariant
                    n == csg.len(),
                    k <= n,
                    rest@ =~= oc.subrange(k as int, n as int),
                    box_views(new_children@) == layout_children_spec(csg, k as int, d0).0,
                    new_children@.len() == k,
                    forall|j: int| 0 <= j < k ==> box_wf(#[trigger] new_children@[j]),
                    d@ =~= (GDims {
                        content: GRect {
                            x: d0.content.x,
                            y: d0.content.y,
                            width: d0.content.width,
                            height: layout_children_spec(csg, k as int, d0).1,
                        },
                        padding: d0.padding,
                        border: d0.border,
                        margin: d0.margin,
                    }),
                decreases n - k,
            {
                let ghost prev = layout_children_spec(csg, k as int, d0);
                let ghost dk = GDims {
                    content: GRect {
                        x: d0.content.x,
                        y: d0.content.y,
                        width: d0.content.width,
                        height: prev.1,
                    },
                    padding: d0.padding,
                    border: d0.border,
                    margin: d0.margin,
                };
                proof {
                    lemma_children_fit_prefix(csg, n as int, k + 1, d0);
                    assert(layout_fits(csg[k as int], dk));
                }
                let child = rest.remove(0);
                proof {
                    assert(child == oc[k as int]);
                    assert(rest@ =~= oc.subrange(k + 1, n as int));
                    assert(box_view(child) == csg[k as int]);
                    assert(box_wf(whole));
                    assert(whole.children@[k as int] == child);
                    assert(box_wf(child));
                    assert(d@ =~= dk);
                }
                let laid = layout(child, &d);
                proof {
                    lemma_laid_bounded(csg[k as int], dk);
                    assert(laid.dimensions@ == layout_spec(csg[k as int], dk).dims);
                }
                let mbox = laid.dimensions.margin_box();
                proof {
                    assert(layout_children_spec(csg, k + 1, d0) == (
                        prev.0.push(layout_spec(csg[k as int], dk)),
                        prev.1 + margin_box_spec(layout_spec(csg[k as int], dk).dims).height,
                    ));
                    assert(d.content.height as int + mbox.height as int == prev.1
                        + margin_box_spec(layout_spec(csg[k as int], dk).dims).height);
                }
                d.content.height = d.content.height + mbox.height;
                new_children.push(laid);
                proof {
                    assert(box_views(new_children@) =~= layout_children_spec(csg, k + 1, d0).0);
                }
                k = k + 1;
            }
            let ghost pair = layout_children_spec(csg, n as int, d0);
            // Height resolution: an explicit pixel height overrides the
            // height accumulated from the children.
            match style.get("height") {
                Some(v) => match v {
                    Value::Length(h, Unit::Px) => {
                        d.content.height = *h;
                    },
                    _ => {},
                },
                None => {},
            }
            let r = LayoutBox {
                dimensions: d,
                box_type: BoxType::BlockNode(style),
                children: new_children,
            };
            proof {
                assert(box_view(r).children =~= pair.0);
                assert(box_view(r) =~= layout_spec(gb, cb));
            }
            r
        },
        BoxType::InlineNode(style) => {
            let r = LayoutBox { dimensions, box_type: BoxType::InlineNode(style), children };
            proof {
                assert(box_view(r) =~= gb);
            }
            r
        },
        BoxType::AnonymousBlock => {
            let r = LayoutBox { dimensions, box_type: BoxType::AnonymousBlock, children };
            proof {
                assert(box_view(r) =~= gb);
            }
            r
        },
    }
}

/// Build the layout box of a styled node that is not `display: none`:
/// hidden children are dropped with their subtrees, block children are
/// appended directly, and inline children of a block parent are routed
/// into a trailing anonymous block (created on demand, reused otherwise),
/// so block layout never sees mixed inline and block siblings.
#[verifier::loop_isolation(false)]
fn build_box(s: StyledNode) -> (r: LayoutBox)
    requires
        styled_wf(s),
        display_of(s.specified_values@) != Display::Hidden,
    ensures
        box_wf(r),
        box_view(r) == build_box_spec(styled_view(s)),
    decreases s,
{
    let ghost gs = styled_view(s);
    let ghost whole = s;
    let block = match s.display() {
        Display::Block => true,
        _ => false,
    };
    let StyledNode { specified_values, children } = s;
    let ghost oc = children@;
    let mut rest = children;
    let mut boxes: Vec<LayoutBox> = Vec::new();
    let n = rest.len();
    let mut k: usize = 0;
    proof {
        assert(rest@ =~= oc.subrange(0, n as int));
        assert(box_views(boxes@) =~= build_children_spec(gs.children, 0, block));
    }
    while k < n
        invariant
            n == gs.children.len(),
            k <= n,
            rest@ =~= oc.subrange(k as int, n as int),
            box_views(boxes@) == build_children_spec(gs.children, k as int, block),
            forall|j: int| 0 <= j < boxes@.len() ==> box_wf(#[trigger] boxes@[j]),
        decreases n - k,
    {
        proof {
            assert(styled_wf(whole));
            assert(whole.children@[k as int] == oc[k as int]);
            assert(styled_wf(oc[k as int]));
        }
        let disp = rest[0].display();
        let child = rest.remove(0);
        proof {
            assert(child == oc[k as int]);
            assert(rest@ =~= oc.subrange(k + 1, n as int));
            assert(styled_view(child) == gs.children[k as int]);
        }
        let ghost prev = build_children_spec(gs.children, k as int, block);
        match disp {
            Display::Hidden => {},
            Display::Block => {
                let b = build_box(child);
                boxes.push(b);
                proof {
                    assert(box_views(boxes@) =~= prev.push(build_box_spec(
                        gs.children[k as int],
                    )));
                }
            },
            Display::Inline => {
                let b = build_box(child);
                let ghost gbx = build_box_spec(gs.children[k as int]);
                if !block {
                    boxes.push(b);
                    proof {
                        assert(box_views(boxes@) =~= prev.push(gbx));
                        assert(box_views(boxes@) =~= append_inline(prev, gbx, block));
                    }
                } else {
                    let len = boxes.len();
                    let reuse: bool = if len > 0 {
                        match &boxes[len - 1].box_type {
                            BoxType::AnonymousBlock => true,
                            _ => false,
                        }
                    } else {
                        false
                    };
                    if reuse {
                        match boxes.pop() {
                            Some(anon) => {
                                let ghost ganon = box_view(anon);
                                let mut anon = anon;
                                anon.children.push(b);
                                proof {
                                    assert(box_view(anon).children =~= ganon.children.push(gbx));
                                    assert(box_view(anon) =~= (GBox {
                                        ty: GBoxType::Anonymous,
                                        dims: ganon.dims,
                                        children: ganon.children.push(gbx),
                                    }));
                                }
                                boxes.push(anon);
                                proof {
                                    assert(box_views(boxes@) =~= append_inline(prev, gbx, block));
                                }
                            },
                            None => {
                                proof {
                                    assert(false);
                                }
                            },
                        }
                    } else {
                        let mut anon_children: Vec<LayoutBox> = Vec::new();
                        anon_children.push(b);
                        let anon = LayoutBox {
                            dimensions: Dimensions::default(),
                            box_type: BoxType::AnonymousBlock,
                            children: anon_children,
                        };
                        proof {
                            assert(box_view(anon).children =~= seq![gbx]);
                            assert(box_view(anon) =~= (GBox {
                                ty: GBoxType::Anonymous,
                                dims: gdims_zero(),
                                children: seq![gbx],
                            }));
                        }
                        boxes.push(anon);
                        proof {
                            assert(box_views(boxes@) =~= append_inline(prev, gbx, block));
                        }
                    }
                }
            },
        }
        k = k + 1;
    }
    let r = LayoutBox {
        dimensions: Dimensions::default(),
        box_type: if block {
            BoxType::BlockNode(specified_values)
        } else {
            BoxType::InlineNode(specified_values)
        },
        children: boxes,
    };
    proof {
        assert(box_view(r).children =~= build_children_spec(gs.children, n as int, block));
        assert(box_view(r) =~= build_box_spec(gs));
    }
    r
}

/// Build the layout tree of a styled tree. A root that resolves to
/// `display: none` is an invariant violation: the pipeline cannot lay out
/// nothing, so it is reported rather than producing an empty tree.
pub fn build_layout_tree(style_node: StyledNode) -> (r: Result<LayoutBox, PipelineError>)
    requires
        styled_wf(style_node),
    ensures
        match r {
            Ok(b) => {
                &&& display_of(style_node.specified_values@) != Display::Hidden
                &&& box_wf(b)
                &&& box_view(b) == build_box_spec(styled_view(style_node))
            },
            Err(e) => {
                &&& e == PipelineError::InvariantViolation
                &&& display_of(style_node.specified_values@) == Display::Hidden
            },
        },
{
    match style_node.display() {
        Display::Hidden => Err(PipelineError::InvariantViolation),
        _ => Ok(build_box(style_node)),
    }
}

/// Width-resolution completeness: when the width and both margins are
/// fixed (not `auto`) and every box-model component sums exactly to the
/// containing width, the resolved width and margins equal their declared
/// values unchanged — zero underflow is a no-op.
pub proof fn lemma_width_exact_fit(vals: Map<Seq<char>, Value>, cbw: int)
    requires
        !width_is_auto(vals),
        !lookup_spec(vals, "margin-left"@, "margin"@, zero_len()).spec_is_auto(),
        !lookup_spec(vals, "margin-right"@, "margin"@, zero_len()).spec_is_auto(),
        width_px(vals) + used_px(vals, "margin-left"@, "margin"@) + used_px(
            vals,
            "margin-right"@,
            "margin"@,
        ) + used_px(vals, "padding-left"@, "padding"@) + used_px(vals, "padding-right"@, "padding"@)
            + used_px(vals, "border-left-width"@, "border"@) + used_px(
            vals,
            "border-right-width"@,
            "border"@,
        ) == cbw,
    ensures
        calc_width_spec(vals, cbw).width == width_px(vals),
        calc_width_spec(vals, cbw).margin_left == used_px(vals, "margin-left"@, "margin"@),
        calc_width_spec(vals, cbw).margin_right == used_px(vals, "margin-right"@, "margin"@),
{
}

/// Auto-width expansion: a block with `width: auto` and zero margins,
/// padding and border inside a containing block of nonnegative content
/// width resolves to exactly that content width.
pub proof fn lemma_auto_width_expands(vals: Map<Seq<char>, Value>, cbw: int)
    requires
        width_is_auto(vals),
        used_px(vals, "margin-left"@, "margin"@) == 0,
        used_px(vals, "margin-right"@, "margin"@) == 0,
        used_px(vals, "padding-left"@, "padding"@) == 0,
        used_px(vals, "padding-right"@, "padding"@) == 0,
        used_px(vals, "border-left-width"@, "border"@) == 0,
        used_px(vals, "border-right-width"@, "border"@) == 0,
        width_px(vals) == 0,
        cbw >= 0,
    ensures
        calc_width_spec(vals, cbw).width == cbw,
        calc_width_spec(vals, cbw).margin_left == 0,
        calc_width_spec(vals, cbw).margin_right == 0,
{
}

/// Auto-margin centering: a block with a fixed width no wider than the
/// containing block, both margins `auto`, and zero padding and border
/// resolves both margins to half of the leftover space.
pub proof fn lemma_auto_margin_centering(vals: Map<Seq<char>, Value>, cbw: int)
    requires
        !width_is_auto(vals),
        lookup_spec(vals, "margin-left"@, "margin"@, zero_len()).spec_is_auto(),
        lookup_spec(vals, "margin-right"@, "margin"@, zero_len()).spec_is_auto(),
        used_px(vals, "padding-left"@, "padding"@) == 0,
        used_px(vals, "padding-right"@, "padding"@) == 0,
        used_px(vals, "border-left-width"@, "border"@) == 0,
        used_px(vals, "border-right-width"@, "border"@) == 0,
        width_px(vals) <= cbw,
    ensures
        calc_width_spec(vals, cbw).width == width_px(vals),
        calc_width_spec(vals, cbw).margin_left == (cbw - width_px(vals)) / 2,
        calc_width_spec(vals, cbw).margin_right == (cbw - width_px(vals)) - (cbw - width_px(vals))
            / 2,
{
    assert(lookup_spec(vals, "margin-left"@, "margin"@, zero_len()).spec_to_px() == 0);
    assert(lookup_spec(vals, "margin-right"@, "margin"@, zero_len()).spec_to_px() == 0);
}

/// The defining equation of the block-width constraint algorithm: in
/// every case — fixed or auto width, any mix of auto margins, even the
/// over-constrained one — the resolved margins, borders, padding and
/// width sum exactly to the containing block's content width.
pub proof fn lemma_width_sum_invariant(vals: Map<Seq<char>, Value>, cbw: int)
    ensures
        ({
            let w = calc_width_spec(vals, cbw);
            w.margin_left + w.border_left + w.padding_left + w.width + w.padding_right
                + w.border_right + w.margin_right == cbw
        }),
{
}

/// The laid-out children of a block are one box per child, in order.
pub proof fn lemma_layout_children_len(cs: Seq<GBox>, n: int, d: GDims)
    requires
        0 <= n <= cs.len(),
    ensures
        layout_children_spec(cs, n, d).0.len() == n,
    decreases n,
{
    if n > 0 {
        lemma_layout_children_len(cs, n - 1, d);
    }
}

/// Vertical stacking: each block child's content origin sits below the
/// height accumulated by its earlier siblings — child `k` starts at the
/// parent's content `y` plus the accumulated height plus its own top
/// margin, border and padding, and the accumulation then grows by exactly
/// child `k`'s margin-box height.
pub proof fn lemma_vertical_stacking(cs: Seq<GBox>, d: GDims, k: int)
    requires
        0 <= k < cs.len(),
        cs[k].ty is Block,
    ensures
        ({
            let hk = layout_children_spec(cs, k, d).1;
            let vals = cs[k].ty->Block_0;
            let laid = layout_children_spec(cs, k + 1, d).0[k];
            &&& laid.dims.content.y == d.content.y + hk + used_px(vals, "margin-top"@, "margin"@)
                + used_px(vals, "border-top-width"@, "border-width"@) + used_px(
                vals,
                "padding-top"@,
                "padding"@,
            )
            &&& layout_children_spec(cs, k + 1, d).1 == hk + margin_box_spec(laid.dims).height
        }),
{
    lemma_layout_children_len(cs, k, d);
    let prev = layout_children_spec(cs, k, d);
    let dk = GDims {
        content: GRect { x: d.content.x, y: d.content.y, width: d.content.width, height: prev.1 },
        padding: d.padding,
        border: d.border,
        margin: d.margin,
    };
    assert(layout_children_spec(cs, k + 1, d).0[k] == layout_spec(cs[k], dk));
}

pub proof fn lemma_layout_children_agree(cs1: Seq<GBox>, cs2: Seq<GBox>, n: int, d: GDims)
    requires
        0 <= n <= cs1.len(),
        n <= cs2.len(),
        forall|i: int| 0 <= i < n ==> cs1[i] == cs2[i],
    ensures
        layout_children_spec(cs1, n, d) == layout_children_spec(cs2, n, d),
    decreases n,
{
    if n > 0 {
        lemma_layout_children_agree(cs1, cs2, n - 1, d);
    }
}

/// Idempotence: laying out an already laid-out tree against the same
/// containing block changes nothing — layout is a pure function of the
/// box styles and the containing block, with no hidden accumulation.
pub proof fn lemma_layout_idempotent(b: GBox, cb: GDims)
    ensures
        layout_spec(layout_spec(b, cb), cb) == layout_spec(b, cb),
    decreases b, 0int,
{
    match b.ty {
        GBoxType::Block(vals) => {
            let d0 = block_dims_spec(vals, cb);
            let n = b.children.len() as int;
            let laid = layout_spec(b, cb);
            lemma_layout_children_len(b.children, n, d0);
            assert(laid.children.len() == n);
            assert(block_dims_spec(vals, cb) == d0);
            lemma_children_idempotent(b.children, n, d0);
            assert(layout_spec(laid, cb) =~= laid);
        },
        GBoxType::Inline(_) => {},
        GBoxType::Anonymous => {},
    }
}

pub proof fn lemma_children_idempotent(cs: Seq<GBox>, n: int, d: GDims)
    requires
        0 <= n <= cs.len(),
    ensures
        layout_children_spec(layout_children_spec(cs, n, d).0, n, d) == layout_children_spec(
            cs,
            n,
            d,
        ),
    decreases cs, n,
{
    if n > 0 {
        let prev = layout_children_spec(cs, n - 1, d);
        let pair = layout_children_spec(cs, n, d);
        let dk = GDims {
            content: GRect {
                x: d.content.x,
                y: d.content.y,
                width: d.content.width,
                height: prev.1,
            },
            padding: d.padding,
            border: d.border,
            margin: d.margin,
        };
        let laid = layout_spec(cs[n - 1], dk);
        lemma_layout_children_len(cs, n - 1, d);
        lemma_layout_children_len(cs, n, d);
        assert(pair.0 == prev.0.push(laid));
        lemma_children_idempotent(cs, n - 1, d);
        lemma_layout_children_agree(pair.0, prev.0, n - 1, d);
        assert(layout_children_spec(pair.0, n - 1, d) == prev);
        assert(pair.0[n - 1] == laid);
        lemma_layout_idempotent(cs[n - 1], dk);
        assert(layout_spec(laid, dk) == laid);
        assert(layout_children_spec(pair.0, n, d) == pair);
    }
}

/// Every block-level or inline-level box in a layout tree carries a
/// property map binding only pixel lengths within `[0, MAX_PX]` — which
/// implies `styles_ok` at every box the solver lays out.
pub open spec fn gbox_styles_bounded(b: GBox) -> bool
    decreases b, 1int,
{
    &&& match b.ty {
        GBoxType::Block(vals) => styles_in_px_range(vals),
        GBoxType::Inline(vals) => styles_in_px_range(vals),
        GBoxType::Anonymous => true,
    }
    &&& gboxes_styles_bounded(b.children, b.children.len() as int)
}

/// The first `n` boxes of a run all carry bounded property maps.
pub open spec fn gboxes_styles_bounded(cs: Seq<GBox>, n: int) -> bool
    decreases cs, n,
{
    if n <= 0 || n > cs.len() {
        true
    } else {
        gboxes_styles_bounded(cs, n - 1) && gbox_styles_bounded(cs[n - 1])
    }
}

/// Every bound value is a pixel length in `[0, MAX_PX]` or not a length.
pub open spec fn styles_in_px_range(vals: Map<Seq<char>, Value>) -> bool {
    forall|k: Seq<char>| #[trigger] vals.contains_key(k) ==> 0 <= vals[k].spec_to_px()
        <= MAX_PX as int
}

pub proof fn lemma_gboxes_bounded_index(cs: Seq<GBox>, n: int, i: int)
    requires
        gboxes_styles_bounded(cs, n),
        0 <= i < n <= cs.len(),
    ensures
        gbox_styles_bounded(cs[i]),
    decreases n,
{
    if i < n - 1 {
        lemma_gboxes_bounded_index(cs, n - 1, i);
    }
}

pub proof fn lemma_gboxes_bounded_all(cs: Seq<GBox>, n: int)
    requires
        0 <= n <= cs.len(),
        forall|i: int| 0 <= i < n ==> gbox_styles_bounded(#[trigger] cs[i]),
    ensures
        gboxes_styles_bounded(cs, n),
    decreases n,
{
    if n > 0 {
        lemma_gboxes_bounded_all(cs, n - 1);
    }
}

pub proof fn lemma_build_children_styles_bounded(cs: Seq<GStyled>, n: int, parent_block: bool)
    requires
        forall|i: int|
            0 <= i < cs.len() ==> crate::style::gstyled_bounded(#[trigger] cs[i]),
    ensures
        ({
            let built = build_children_spec(cs, n, parent_block);
            forall|j: int| 0 <= j < built.len() ==> gbox_styles_bounded(#[trigger] built[j])
        }),
    decreases cs, n,
{
    if n <= 0 || n > cs.len() {
    } else {
        lemma_build_children_styles_bounded(cs, n - 1, parent_block);
        let prev = build_children_spec(cs, n - 1, parent_block);
        let s = cs[n - 1];
        match display_of(s.values) {
            Display::Hidden => {},
            Display::Block => {
                lemma_build_box_styles_bounded(s);
            },
            Display::Inline => {
                lemma_build_box_styles_bounded(s);
                let b = build_box_spec(s);
                if parent_block && prev.len() > 0 && prev.last().ty is Anonymous {
                    let anon = GBox {
                        ty: GBoxType::Anonymous,
                        dims: prev.last().dims,
                        children: prev.last().children.push(b),
                    };
                    assert(gbox_styles_bounded(anon)) by {
                        let old_anon = prev.last();
                        let m = old_anon.children.len() as int;
                        assert(gboxes_styles_bounded(old_anon.children, m));
                        assert forall|i: int| 0 <= i < anon.children.len() implies
                            gbox_styles_bounded(#[trigger] anon.children[i]) by {
                            if i < m {
                                lemma_gboxes_bounded_index(old_anon.children, m, i);
                                assert(anon.children[i] == old_anon.children[i]);
                            } else {
                                assert(anon.children[i] == b);
                            }
                        }
                        lemma_gboxes_bounded_all(anon.children, anon.children.len() as int);
                    }
                } else if parent_block {
                    let anon = GBox {
                        ty: GBoxType::Anonymous,
                        dims: gdims_zero(),
                        children: seq![b],
                    };
                    assert(gbox_styles_bounded(anon)) by {
                        assert(gboxes_styles_bounded(anon.children, 0));
                        assert(anon.children[0] == b);
                    }
                }
            },
        }
    }
}

/// A styled node with bounded property maps throughout builds a layout
/// tree with bounded property maps throughout.
pub proof fn lemma_build_box_styles_bounded(s: GStyled)
    requires
        crate::style::gstyled_bounded(s),
    ensures
        gbox_styles_bounded(build_box_spec(s)),
    decreases s, 1int,
{
    lemma_build_children_styles_bounded(
        s.children,
        s.children.len() as int,
        display_of(s.values) is Block,
    );
    let b = build_box_spec(s);
    assert(b.children == build_children_spec(
        s.children,
        s.children.len() as int,
        display_of(s.values) is Block,
    ));
    lemma_gboxes_bounded_all(b.children, b.children.len() as int);
}

/// End to end: a stylesheet whose declared lengths lie in `[0, MAX_PX]`
/// styles and builds, for any document, a layout tree whose every box
/// satisfies the solver's `styles_ok` premise.
pub proof fn lemma_pipeline_styles_bounded(n: crate::dom::Node, sheet: crate::css_parser::StyleSheet)
    requires
        crate::css_parser::sheet_lengths_bounded(sheet),
    ensures
        gbox_styles_bounded(build_box_spec(crate::style::style_tree_spec(n, sheet))),
{
    crate::style::lemma_style_tree_bounded(n, sheet);
    lemma_build_box_styles_bounded(crate::style::style_tree_spec(n, sheet));
}

/// No two anonymous blocks stand next to each other in a child run.
pub open spec fn no_adjacent_anonymous(cs: Seq<GBox>) -> bool {
    forall|i: int|
        0 <= i < cs.len() - 1 ==> !((#[trigger] cs[i].ty) is Anonymous && cs[i + 1].ty is Anonymous)
}

/// Consecutive inline runs coalesce: the tree builder never leaves two
/// anonymous blocks as adjacent siblings.
pub proof fn lemma_build_no_adjacent_anonymous(cs: Seq<GStyled>, n: int, parent_block: bool)
    ensures
        no_adjacent_anonymous(build_children_spec(cs, n, parent_block)),
    decreases n,
{
    if n <= 0 || n > cs.len() {
    } else {
        lemma_build_no_adjacent_anonymous(cs, n - 1, parent_block);
        let prev = build_children_spec(cs, n - 1, parent_block);
        let s = cs[n - 1];
        match display_of(s.values) {
            Display::Hidden => {},
            Display::Block => {
                assert(!(build_box_spec(s).ty is Anonymous));
            },
            Display::Inline => {
                assert(!(build_box_spec(s).ty is Anonymous));
            },
        }
    }
}

} // verus!
