//! The layout-tree builder: one box per displayed styled node, with
//! anonymous block boxes inserted so inline content never sits directly
//! among the block children of a block box. Geometry is zeroed here;
//! sizing belongs to downstream consumers.

use vstd::prelude::*;

verus! {

use crate::dom::{NodeType, NodeTypeV};
use crate::parser::{Decimal, DecimalV, ValueV};
use crate::styler::{spec_display, Display, PropertyMap, StyledNode, StyledV};

/// A rectangle: position and size.
#[derive(Clone, Copy, PartialEq, Eq, Debug)]
pub struct Rect {
    pub x: Decimal,
    pub y: Decimal,
    pub width: Decimal,
    pub height: Decimal,
}

/// Four edge sizes: padding, border or margin of a box.
#[derive(Clone, Copy, PartialEq, Eq, Debug)]
pub struct EdgeSizes {
    pub left: Decimal,
    pub right: Decimal,
    pub top: Decimal,
    pub bottom: Decimal,
}

/// A box's geometry: content rectangle plus padding, border and margin.
#[derive(Clone, Copy, PartialEq, Eq, Debug)]
pub struct Dimensions {
    pub content: Rect,
    pub padding: EdgeSizes,
    pub border: EdgeSizes,
    pub margin: EdgeSizes,
}

/// Spec-level picture of a rectangle: each measure as an exact decimal.
pub struct RectV {
    pub x: DecimalV,
    pub y: DecimalV,
    pub width: DecimalV,
    pub height: DecimalV,
}

/// Spec-level picture of four edge sizes.
pub struct EdgeSizesV {
    pub left: DecimalV,
    pub right: DecimalV,
    pub top: DecimalV,
    pub bottom: DecimalV,
}

/// Spec-level picture of a box's geometry.
pub struct DimensionsV {
    pub content: RectV,
    pub padding: EdgeSizesV,
    pub border: EdgeSizesV,
    pub margin: EdgeSizesV,
}

impl View for Rect {
    type V = RectV;

    open spec fn view(&self) -> RectV {
        RectV { x: self.x@, y: self.y@, width: self.width@, height: self.height@ }
    }
}

impl View for EdgeSizes {
    type V = EdgeSizesV;

    open spec fn view(&self) -> EdgeSizesV {
        EdgeSizesV {
            left: self.left@,
            right: self.right@,
            top: self.top@,
            bottom: self.bottom@,
        }
    }
}

impl View for Dimensions {
    type V = DimensionsV;

    open spec fn view(&self) -> DimensionsV {
        DimensionsV {
            content: self.content@,
            padding: self.padding@,
            border: self.border@,
            margin: self.margin@,
        }
    }
}

/// The zero decimal.
pub open spec fn zero_dec() -> DecimalV {
    DecimalV { mantissa: 0, scale: 0 }
}

/// Geometry with every measure zero.
pub open spec fn zero_dims() -> DimensionsV {
    DimensionsV {
        content: RectV { x: zero_dec(), y: zero_dec(), width: zero_dec(), height: zero_dec() },
        padding: EdgeSizesV {
            left: zero_dec(),
            right: zero_dec(),
            top: zero_dec(),
            bottom: zero_dec(),
        },
        border: EdgeSizesV {
            left: zero_dec(),
            right: zero_dec(),
            top: zero_dec(),
            bottom: zero_dec(),
        },
        margin: EdgeSizesV {
            left: zero_dec(),
            right: zero_dec(),
            top: zero_dec(),
            bottom: zero_dec(),
        },
    }
}

impl Dimensions {
    /// Geometry with every measure zero.
    pub fn zeroed() -> (r: Dimensions)
        ensures
            r@ == zero_dims(),
    {
        let z = Decimal { mantissa: 0, scale: 0 };
        Dimensions {
            content: Rect { x: z, y: z, width: z, height: z },
            padding: EdgeSizes { left: z, right: z, top: z, bottom: z },
            border: EdgeSizes { left: z, right: z, top: z, bottom: z },
            margin: EdgeSizes { left: z, right: z, top: z, bottom: z },
        }
    }
}

/// What a box stands for: a block or inline styled node, carrying the
/// node's variant and resolved properties, or a synthesized anonymous
/// block with no styled node behind it.
pub enum BoxType {
    BlockNode(NodeType, PropertyMap),
    InlineNode(NodeType, PropertyMap),
    AnonymousBlock,
}

/// Spec-level picture of a box's kind.
pub enum BoxTypeV {
    BlockNode(NodeTypeV, Map<Seq<char>, ValueV>),
    InlineNode(NodeTypeV, Map<Seq<char>, ValueV>),
    AnonymousBlock,
}

impl View for BoxType {
    type V = BoxTypeV;

    open spec fn view(&self) -> BoxTypeV {
        match self {
            BoxType::BlockNode(n, p) => BoxTypeV::BlockNode(n@, p@),
            BoxType::InlineNode(n, p) => BoxTypeV::InlineNode(n@, p@),
            BoxType::AnonymousBlock => BoxTypeV::AnonymousBlock,
        }
    }
}

/// Spec-level picture of a layout box.
pub struct LayoutBoxV {
    pub dimensions: DimensionsV,
    pub box_type: BoxTypeV,
    pub children: Seq<LayoutBoxV>,
}

/// A layout box: zeroed geometry, its kind, and its child boxes.
pub struct LayoutBox {
    pub dimensions: Dimensions,
    pub box_type: BoxType,
    pub children: Vec<LayoutBox>,
}

impl View for LayoutBox {
    type V = LayoutBoxV;

    open spec fn view(&self) -> LayoutBoxV
        decreases self,
    {
        LayoutBoxV {
            dimensions: self.dimensions@,
            box_type: self.box_type@,
            children: Seq::new(
                self.children@.len(),
                |i: int|
                    if 0 <= i < self.children@.len() {
                        self.children@[i]@
                    } else {
                        LayoutBoxV {
                            dimensions: zero_dims(),
                            box_type: BoxTypeV::AnonymousBlock,
                            children: Seq::empty(),
                        }
                    },
            ),
        }
    }
}

impl LayoutBox {
    /// A childless box of the given kind with zeroed geometry.
    pub fn new(box_type: BoxType) -> (r: LayoutBox)
        ensures
            r@ == empty_box(box_type@),
    {
        let r = LayoutBox { dimensions: Dimensions::zeroed(), box_type, children: Vec::new() };
        proof {
            assert(r@.children =~= Seq::<LayoutBoxV>::empty());
        }
        r
    }
}

/// The views of a sequence of boxes, in order.
pub open spec fn boxes_view(s: Seq<LayoutBox>) -> Seq<LayoutBoxV> {
    s.map_values(|c: LayoutBox| c@)
}

/// The error of asking for a layout tree whose root has no box.
#[derive(Clone, Copy, PartialEq, Eq, Structural, Debug)]
pub struct LayoutError {}

/// A childless box of the given kind with zeroed geometry.
pub open spec fn empty_box(bt: BoxTypeV) -> LayoutBoxV {
    LayoutBoxV { dimensions: zero_dims(), box_type: bt, children: Seq::empty() }
}

/// The kind of box a styled node produces.
pub open spec fn spec_box_type(sn: StyledV) -> BoxTypeV {
    match spec_display(sn) {
        Display::Block => BoxTypeV::BlockNode(sn.node_type, sn.specified_values),
        Display::Inline => BoxTypeV::InlineNode(sn.node_type, sn.specified_values),
        Display::NoBox => BoxTypeV::AnonymousBlock,
    }
}

/// An inline box joined to a block box's children: it lands in the
/// trailing anonymous block, which is created first unless the previous
/// child already is one. A block child in between thus starts a fresh
/// anonymous run.
pub open spec fn insert_inline(acc: Seq<LayoutBoxV>, b: LayoutBoxV) -> Seq<LayoutBoxV> {
    if acc.len() > 0 && acc.last().box_type is AnonymousBlock {
        acc.drop_last().push(
            LayoutBoxV {
                dimensions: acc.last().dimensions,
                box_type: acc.last().box_type,
                children: acc.last().children.push(b),
            },
        )
    } else {
        acc.push(
            LayoutBoxV {
                dimensions: zero_dims(),
                box_type: BoxTypeV::AnonymousBlock,
                children: seq![b],
            },
        )
    }
}

/// The child boxes of `sn` from child `i` on, appended to `acc`: block
/// children directly, inline children through the inline container (the
/// box itself unless it is a block, then the trailing anonymous block),
/// `none`-display children not at all.
pub open spec fn spec_build_children(
    sn: StyledV,
    root_block: bool,
    i: int,
    acc: Seq<LayoutBoxV>,
) -> Seq<LayoutBoxV>
    decreases sn, sn.children.len() - i,
{
    if i < 0 || i >= sn.children.len() {
        acc
    } else {
        let c = sn.children[i];
        match spec_display(c) {
            Display::Block => spec_build_children(
                sn,
                root_block,
                i + 1,
                acc.push(spec_build_layout(c)),
            ),
            Display::Inline => spec_build_children(
                sn,
                root_block,
                i + 1,
                if root_block {
                    insert_inline(acc, spec_build_layout(c))
                } else {
                    acc.push(spec_build_layout(c))
                },
            ),
            Display::NoBox => spec_build_children(sn, root_block, i + 1, acc),
        }
    }
}

/// The layout box of a styled node: its kind from its display, zeroed
/// geometry, and its children built in order. Meaningful whenever the
/// node's display is not `none`.
pub open spec fn spec_build_layout(sn: StyledV) -> LayoutBoxV
    decreases sn, sn.children.len() + 1,
{
    LayoutBoxV {
        dimensions: zero_dims(),
        box_type: spec_box_type(sn),
        children: spec_build_children(
            sn,
            spec_display(sn) is Block,
            0,
            Seq::empty(),
        ),
    }
}

impl LayoutBox {
    /// Pushes `b` through the box's inline container: an inline or
    /// anonymous box is its own container, while a block box hands the
    /// push to its trailing anonymous block, created fresh unless the
    /// last child already is one. This is the container lookup in `&mut`
    /// form: no alias into the children escapes, the push happens here.
    fn push_into_inline_container(&mut self, b: LayoutBox)
        ensures
            final(self).dimensions == old(self).dimensions,
            final(self).box_type == old(self).box_type,
            boxes_view(final(self).children@) == (if old(self).box_type@ is BlockNode {
                insert_inline(boxes_view(old(self).children@), b@)
            } else {
                boxes_view(old(self).children@).push(b@)
            }),
    {
        let ghost acc0 = boxes_view(self.children@);
        let is_block = match &self.box_type {
            BoxType::BlockNode(..) => true,
            _ => false,
        };
        if is_block {
            let k = self.children.len();
            let mut need_anon = true;
            if k > 0 {
                match &self.children[k - 1].box_type {
                    BoxType::AnonymousBlock => {
                        need_anon = false;
                    },
                    _ => {},
                }
            }
            if need_anon {
                self.children.push(LayoutBox::new(BoxType::AnonymousBlock));
                proof {
                    assert(boxes_view(self.children@) =~= acc0.push(
                        empty_box(BoxTypeV::AnonymousBlock),
                    ));
                }
            }
            let ghost acc1 = boxes_view(self.children@);
            proof {
                assert(acc1.len() > 0 && acc1.last().box_type is AnonymousBlock);
            }
            match self.children.pop() {
                Some(anon) => {
                    let mut anon = anon;
                    let ghost anon0 = anon@;
                    anon.children.push(b);
                    proof {
                        assert(anon@.children =~= anon0.children.push(b@));
                        assert(anon@ == (LayoutBoxV {
                            dimensions: anon0.dimensions,
                            box_type: anon0.box_type,
                            children: anon0.children.push(b@),
                        }));
                    }
                    self.children.push(anon);
                    proof {
                        assert(boxes_view(self.children@) =~= acc1.drop_last().push(anon@));
                        if need_anon {
                            assert(acc1.drop_last() =~= acc0);
                            assert(anon0.children.push(b@) =~= seq![b@]);
                            assert(boxes_view(self.children@) =~= insert_inline(acc0, b@));
                        } else {
                            assert(boxes_view(self.children@) =~= insert_inline(acc0, b@));
                        }
                    }
                },
                None => {
                    proof {
                        assert(false);
                    }
                },
            }
        } else {
            self.children.push(b);
            proof {
                assert(boxes_view(self.children@) =~= acc0.push(b@));
            }
        }
    }
}

/// Builds the layout tree for `style_node`. A root whose display is
/// `none` has no box: that is the one error.
pub fn build_layout_tree(style_node: &StyledNode) -> (r: Result<LayoutBox, LayoutError>)
    ensures
        spec_display(style_node@) is NoBox <==> r is Err,
        r matches Ok(b) ==> b@ == spec_build_layout(style_node@),
    decreases *style_node,
{
    let d = style_node.display();
    let box_type = match d {
        Display::Block => BoxType::BlockNode(
            style_node.node_type.dup(),
            style_node.specified_values.dup(),
        ),
        Display::Inline => BoxType::InlineNode(
            style_node.node_type.dup(),
            style_node.specified_values.dup(),
        ),
        Display::NoBox => {
            return Err(LayoutError {  });
        },
    };
    let root_is_block = match d {
        Display::Block => true,
        _ => false,
    };
    let mut root = LayoutBox::new(box_type);
    proof {
        assert(boxes_view(root.children@) =~= Seq::<LayoutBoxV>::empty());
    }
    let ghost sn = style_node@;
    let n = style_node.children.len();
    let mut i: usize = 0;
    while i < n
        invariant
            i <= n,
            n == style_node.children@.len(),
            sn == style_node@,
            n == sn.children.len(),
            root_is_block == (spec_display(sn) is Block),
            root.dimensions@ == zero_dims(),
            root.box_type@ == spec_box_type(sn),
            spec_build_children(sn, root_is_block, 0, Seq::empty()) == spec_build_children(
                sn,
                root_is_block,
                i as int,
                boxes_view(root.children@),
            ),
        decreases n - i,
    {
        let child = &style_node.children[i];
        proof {
            assert(child@ == sn.children[i as int]);
        }
        let cd = child.display();
        match cd {
            Display::Block => {
                match build_layout_tree(child) {
                    Ok(b) => {
                        let ghost acc0 = boxes_view(root.children@);
                        root.children.push(b);
                        proof {
                            assert(boxes_view(root.children@) =~= acc0.push(b@));
                        }
                    },
                    Err(e) => {
                        return Err(e);
                    },
                }
            },
            Display::Inline => {
                match build_layout_tree(child) {
                    Ok(b) => {
                        root.push_into_inline_container(b);
                    },
                    Err(e) => {
                        return Err(e);
                    },
                }
            },
            Display::NoBox => {},
        }
        i += 1;
    }
    proof {
        assert(root@.children =~= boxes_view(root.children@));
        assert(root@ == spec_build_layout(sn));
    }
    Ok(root)
}

} // verus!