use vstd::prelude::*;
use crate::css::{Unit, Value, ValueV};
use crate::datatypes::map_of;
use crate::styles::{
    spec_display,
    spec_lookup,
    spec_value_of,
    stylenode_view,
    stylenodes_view,
    Display,
    PropertyMap,
    StyleNode,
    StyleNodeV,
};
use crate::strutil::string_is;

verus! {

broadcast use vstd::std_specs::vec::axiom_vec_index_decreases, vstd::seq::axiom_seq_index_decreases;

/// Coordinates and sizes are stored in subpixel units and clamped to this
/// bound when a sum is stored, so that layout arithmetic is total; the
/// bound lies far beyond any real document.
pub const PX_CLAMP: i128 = 1_000_000_000_000_000_000_000_000_000_000;

pub open spec fn clamp_px(x: int) -> int {
    if x > PX_CLAMP as int {
        PX_CLAMP as int
    } else if x < -(PX_CLAMP as int) {
        -(PX_CLAMP as int)
    } else {
        x
    }
}

fn clamp128(x: i128) -> (r: i128)
    ensures
        r as int == clamp_px(x as int),
{
    if x > PX_CLAMP {
        PX_CLAMP
    } else if x < -PX_CLAMP {
        -PX_CLAMP
    } else {
        x
    }
}

/// A rectangle: position of its top-left corner, then its size.
#[derive(Clone, Copy, Debug)]
pub struct Rect {
    pub x: i128,
    pub y: i128,
    pub width: i128,
    pub height: i128,
}

pub struct RectV {
    pub x: int,
    pub y: int,
    pub width: int,
    pub height: int,
}

impl View for Rect {
    type V = RectV;

    open spec fn view(&self) -> RectV {
        RectV {
            x: self.x as int,
            y: self.y as int,
            width: self.width as int,
            height: self.height as int,
        }
    }
}

/// The four edge sizes of one box layer.
#[derive(Clone, Copy, Debug)]
pub struct EdgeSize {
    pub left: i128,
    pub right: i128,
    pub top: i128,
    pub bottom: i128,
}

pub struct EdgeSizeV {
    pub left: int,
    pub right: int,
    pub top: int,
    pub bottom: int,
}

impl View for EdgeSize {
    type V = EdgeSizeV;

    open spec fn view(&self) -> EdgeSizeV {
        EdgeSizeV {
            left: self.left as int,
            right: self.right as int,
            top: self.top as int,
            bottom: self.bottom as int,
        }
    }
}

/// A box's geometry: content rectangle and padding, border and margin
/// edges.
#[derive(Clone, Copy, Debug)]
pub struct Dimension {
    pub content: Rect,
    pub padding: EdgeSize,
    pub border: EdgeSize,
    pub margin: EdgeSize,
}

pub struct DimensionV {
    pub content: RectV,
    pub padding: EdgeSizeV,
    pub border: EdgeSizeV,
    pub margin: EdgeSizeV,
}

impl View for Dimension {
    type V = DimensionV;

    open spec fn view(&self) -> DimensionV {
        DimensionV {
            content: self.content@,
            padding: self.padding@,
            border: self.border@,
            margin: self.margin@,
        }
    }
}

pub open spec fn zero_edges() -> EdgeSizeV {
    EdgeSizeV { left: 0, right: 0, top: 0, bottom: 0 }
}

pub open spec fn zero_dimension() -> DimensionV {
    DimensionV {
        content: RectV { x: 0, y: 0, width: 0, height: 0 },
        padding: zero_edges(),
        border: zero_edges(),
        margin: zero_edges(),
    }
}

impl Dimension {
    /// All-zero geometry.
    pub fn zeroed() -> (r: Dimension)
        ensures
            r@ == zero_dimension(),
    {
        Dimension {
            content: Rect { x: 0, y: 0, width: 0, height: 0 },
            padding: EdgeSize { left: 0, right: 0, top: 0, bottom: 0 },
            border: EdgeSize { left: 0, right: 0, top: 0, bottom: 0 },
            margin: EdgeSize { left: 0, right: 0, top: 0, bottom: 0 },
        }
    }
}

/// The style a box keeps from its styled node: the computed properties and
/// the text of the node's first child where that child is a text node.
pub struct BoxStyle {
    pub style_values: PropertyMap,
    pub first_text: Option<String>,
}

pub struct BoxStyleV {
    pub props: Map<Seq<char>, ValueV>,
    pub first_text: Option<Seq<char>>,
}

impl View for BoxStyle {
    type V = BoxStyleV;

    open spec fn view(&self) -> BoxStyleV {
        BoxStyleV {
            props: map_of(self.style_values.entries@),
            first_text: match self.first_text {
                Some(t) => Some(t@),
                None => None,
            },
        }
    }
}

/// What kind of box this is: a block-level or inline-level box carrying
/// style, or an anonymous block wrapping inline content.
pub enum BoxType {
    BlockNode(BoxStyle),
    InlineNode(BoxStyle),
    AnonymousBlock,
}

pub enum BoxTypeV {
    BlockNode(BoxStyleV),
    InlineNode(BoxStyleV),
    AnonymousBlock,
}

impl View for BoxType {
    type V = BoxTypeV;

    open spec fn view(&self) -> BoxTypeV {
        match self {
            BoxType::BlockNode(s) => BoxTypeV::BlockNode(s@),
            BoxType::InlineNode(s) => BoxTypeV::InlineNode(s@),
            BoxType::AnonymousBlock => BoxTypeV::AnonymousBlock,
        }
    }
}

/// A box of the layout tree.
pub struct LayoutBox {
    pub dimensions: Dimension,
    pub box_type: BoxType,
    pub children: Vec<LayoutBox>,
}

pub struct LayoutBoxV {
    pub dimensions: DimensionV,
    pub box_type: BoxTypeV,
    pub children: Seq<LayoutBoxV>,
}

pub open spec fn layoutbox_view(b: LayoutBox) -> LayoutBoxV
    decreases b, 0int,
{
    LayoutBoxV {
        dimensions: b.dimensions@,
        box_type: b.box_type@,
        children: layoutboxes_view(b.children, 0),
    }
}

pub open spec fn layoutboxes_view(cs: Vec<LayoutBox>, i: int) -> Seq<LayoutBoxV>
    decreases cs, cs.len() - i,
{
    if 0 <= i < cs.len() {
        seq![layoutbox_view(cs[i as int])] + layoutboxes_view(cs, i + 1)
    } else {
        Seq::empty()
    }
}

pub proof fn lemma_layoutboxes_view(cs: Vec<LayoutBox>, i: int)
    requires
        0 <= i <= cs.len(),
    ensures
        layoutboxes_view(cs, i).len() == cs.len() - i,
        forall|k: int|
            0 <= k < cs.len() - i ==> layoutboxes_view(cs, i)[k] == layoutbox_view(cs[i + k]),
    decreases cs.len() - i,
{
    if i < cs.len() {
        lemma_layoutboxes_view(cs, i + 1);
    }
}

impl View for LayoutBox {
    type V = LayoutBoxV;

    open spec fn view(&self) -> LayoutBoxV {
        layoutbox_view(*self)
    }
}

/// The style a box keeps from a styled node.
pub open spec fn spec_box_style(sn: StyleNodeV) -> BoxStyleV {
    BoxStyleV {
        props: sn.props,
        first_text: if sn.children.len() > 0 {
            sn.children[0].text
        } else {
            None
        },
    }
}

/// The box a styled node becomes, children included; display `none` is
/// excluded by the callers.
pub open spec fn spec_build_box(sn: StyleNodeV) -> LayoutBoxV
    decreases sn, 0int, 0int,
{
    let kind = if spec_display(sn.props) == Display::Block {
        BoxTypeV::BlockNode(spec_box_style(sn))
    } else {
        BoxTypeV::InlineNode(spec_box_style(sn))
    };
    let children = if spec_display(sn.props) == Display::Block {
        spec_build_children_block(sn.children, 0, Seq::empty(), None)
    } else {
        spec_build_children_flat(sn.children, 0, Seq::empty())
    };
    LayoutBoxV { dimensions: zero_dimension(), box_type: kind, children }
}

pub open spec fn anonymous_box(cs: Seq<LayoutBoxV>) -> LayoutBoxV {
    LayoutBoxV { dimensions: zero_dimension(), box_type: BoxTypeV::AnonymousBlock, children: cs }
}

/// Children of a block box: block children flush the pending anonymous
/// wrapper and stand on their own; consecutive inline children gather under
/// one anonymous block; `none` children vanish with their subtrees.
pub open spec fn spec_build_children_block(
    cs: Seq<StyleNodeV>,
    i: int,
    done: Seq<LayoutBoxV>,
    pending: Option<Seq<LayoutBoxV>>,
) -> Seq<LayoutBoxV>
    decreases cs, cs.len() - i, 1int,
{
    if 0 <= i < cs.len() {
        match spec_display(cs[i].props) {
            Display::Hidden => spec_build_children_block(cs, i + 1, done, pending),
            Display::Block => {
                let done2 = match pending {
                    Some(ps) => done.push(anonymous_box(ps)),
                    None => done,
                };
                spec_build_children_block(cs, i + 1, done2.push(spec_build_box(cs[i])), None)
            },
            Display::Inline => {
                let ps = match pending {
                    Some(ps) => ps,
                    None => Seq::empty(),
                };
                spec_build_children_block(
                    cs,
                    i + 1,
                    done,
                    Some(ps.push(spec_build_box(cs[i]))),
                )
            },
        }
    } else {
        match pending {
            Some(ps) => done.push(anonymous_box(ps)),
            None => done,
        }
    }
}

/// Children of an inline or anonymous box: the box is its own inline
/// container, so block and inline children alike are appended directly;
/// `none` children vanish.
pub open spec fn spec_build_children_flat(
    cs: Seq<StyleNodeV>,
    i: int,
    done: Seq<LayoutBoxV>,
) -> Seq<LayoutBoxV>
    decreases cs, cs.len() - i, 1int,
{
    if 0 <= i < cs.len() {
        if spec_display(cs[i].props) == Display::Hidden {
            spec_build_children_flat(cs, i + 1, done)
        } else {
            spec_build_children_flat(cs, i + 1, done.push(spec_build_box(cs[i])))
        }
    } else {
        done
    }
}

/// A subtree whose root computes to display `none` contributes nothing:
/// dropping such a child from a styled node leaves the built box tree
/// unchanged, whatever the displays of its own descendants, and with it
/// every paint command later read off that tree. The one exception is a
/// hidden first child standing before a text node: the parent box records
/// the text of its first styled child, hidden or not, so dropping such a
/// child changes which node is first; the premise leaves exactly those
/// inputs out.
pub proof fn lemma_display_none_excluded(sn: StyleNodeV, k: int)
    requires
        0 <= k < sn.children.len(),
        spec_display(sn.children[k].props) == Display::Hidden,
        k > 0 || sn.children[k].text == (if sn.children.len() > 1 {
            sn.children[1].text
        } else {
            None
        }),
    ensures
        spec_build_box(sn) == spec_build_box(
            StyleNodeV {
                children: sn.children.take(k) + sn.children.skip(k + 1),
                ..sn
            },
        ),
{
    let cs1 = sn.children;
    let cs2 = sn.children.take(k) + sn.children.skip(k + 1);
    let sn2 = StyleNodeV { children: cs2, ..sn };
    assert(cs2.len() == cs1.len() - 1);
    assert(forall|j: int| 0 <= j < k ==> cs2[j] == cs1[j]);
    assert(forall|j: int| k <= j < cs2.len() ==> cs2[j] == cs1[j + 1]);
    lemma_build_block_skip(cs1, cs2, k, 0, Seq::empty(), None);
    lemma_build_flat_skip(cs1, cs2, k, 0, Seq::empty());
    assert(spec_box_style(sn2) == spec_box_style(sn)) by {
        if k == 0 {
            if cs2.len() > 0 {
                assert(cs2[0] == cs1[1]);
            }
        } else {
            assert(cs2[0] == cs1[0]);
        }
    }
    assert(sn2.props == sn.props);
    assert(spec_build_box(sn2) == spec_build_box(sn));
}

proof fn lemma_build_block_skip(
    cs1: Seq<StyleNodeV>,
    cs2: Seq<StyleNodeV>,
    k: int,
    i: int,
    done: Seq<LayoutBoxV>,
    pending: Option<Seq<LayoutBoxV>>,
)
    requires
        0 <= k < cs1.len(),
        spec_display(cs1[k].props) == Display::Hidden,
        cs2 == cs1.take(k) + cs1.skip(k + 1),
        0 <= i <= k,
    ensures
        spec_build_children_block(cs1, i, done, pending) == spec_build_children_block(
            cs2,
            i,
            done,
            pending,
        ),
    decreases k - i,
{
    assert(cs2.len() == cs1.len() - 1);
    assert(forall|j: int| 0 <= j < k ==> cs2[j] == cs1[j]);
    assert(forall|j: int| k <= j < cs2.len() ==> cs2[j] == cs1[j + 1]);
    if i == k {
        // `cs1[k]` is hidden and skipped; from there the suffixes agree.
        lemma_build_block_shift(cs1, cs2, k, k, done, pending);
    } else {
        match spec_display(cs1[i].props) {
            Display::Hidden => {
                lemma_build_block_skip(cs1, cs2, k, i + 1, done, pending);
            },
            Display::Block => {
                let done2 = match pending {
                    Some(ps) => done.push(anonymous_box(ps)),
                    None => done,
                };
                lemma_build_block_skip(
                    cs1,
                    cs2,
                    k,
                    i + 1,
                    done2.push(spec_build_box(cs1[i])),
                    None,
                );
            },
            Display::Inline => {
                let ps = match pending {
                    Some(ps) => ps,
                    None => Seq::empty(),
                };
                lemma_build_block_skip(
                    cs1,
                    cs2,
                    k,
                    i + 1,
                    done,
                    Some(ps.push(spec_build_box(cs1[i]))),
                );
            },
        }
    }
}

/// After the dropped position, the two child lists are the same list
/// shifted by one.
proof fn lemma_build_block_shift(
    cs1: Seq<StyleNodeV>,
    cs2: Seq<StyleNodeV>,
    k: int,
    i: int,
    done: Seq<LayoutBoxV>,
    pending: Option<Seq<LayoutBoxV>>,
)
    requires
        0 <= k < cs1.len(),
        spec_display(cs1[k].props) == Display::Hidden,
        cs2 == cs1.take(k) + cs1.skip(k + 1),
        k <= i <= cs1.len(),
    ensures
        spec_build_children_block(cs1, i, done, pending) == if i == k {
            spec_build_children_block(cs2, i, done, pending)
        } else {
            spec_build_children_block(cs2, i - 1, done, pending)
        },
    decreases cs1.len() - i,
{
    assert(cs2.len() == cs1.len() - 1);
    assert(forall|j: int| 0 <= j < k ==> cs2[j] == cs1[j]);
    assert(forall|j: int| k <= j < cs2.len() ==> cs2[j] == cs1[j + 1]);
    if i == k {
        lemma_build_block_shift(cs1, cs2, k, i + 1, done, pending);
    } else if i < cs1.len() {
        match spec_display(cs1[i].props) {
            Display::Hidden => {
                lemma_build_block_shift(cs1, cs2, k, i + 1, done, pending);
            },
            Display::Block => {
                let done2 = match pending {
                    Some(ps) => done.push(anonymous_box(ps)),
                    None => done,
                };
                lemma_build_block_shift(
                    cs1,
                    cs2,
                    k,
                    i + 1,
                    done2.push(spec_build_box(cs1[i])),
                    None,
                );
            },
            Display::Inline => {
                let ps = match pending {
                    Some(ps) => ps,
                    None => Seq::empty(),
                };
                lemma_build_block_shift(
                    cs1,
                    cs2,
                    k,
                    i + 1,
                    done,
                    Some(ps.push(spec_build_box(cs1[i]))),
                );
            },
        }
    }
}

proof fn lemma_build_flat_skip(
    cs1: Seq<StyleNodeV>,
    cs2: Seq<StyleNodeV>,
    k: int,
    i: int,
    done: Seq<LayoutBoxV>,
)
    requires
        0 <= k < cs1.len(),
        spec_display(cs1[k].props) == Display::Hidden,
        cs2 == cs1.take(k) + cs1.skip(k + 1),
        0 <= i <= k,
    ensures
        spec_build_children_flat(cs1, i, done) == spec_build_children_flat(cs2, i, done),
    decreases k - i,
{
    assert(cs2.len() == cs1.len() - 1);
    assert(forall|j: int| 0 <= j < k ==> cs2[j] == cs1[j]);
    assert(forall|j: int| k <= j < cs2.len() ==> cs2[j] == cs1[j + 1]);
    if i == k {
        lemma_build_flat_shift(cs1, cs2, k, k, done);
    } else {
        if spec_display(cs1[i].props) == Display::Hidden {
            lemma_build_flat_skip(cs1, cs2, k, i + 1, done);
        } else {
            lemma_build_flat_skip(cs1, cs2, k, i + 1, done.push(spec_build_box(cs1[i])));
        }
    }
}

proof fn lemma_build_flat_shift(
    cs1: Seq<StyleNodeV>,
    cs2: Seq<StyleNodeV>,
    k: int,
    i: int,
    done: Seq<LayoutBoxV>,
)
    requires
        0 <= k < cs1.len(),
        spec_display(cs1[k].props) == Display::Hidden,
        cs2 == cs1.take(k) + cs1.skip(k + 1),
        k <= i <= cs1.len(),
    ensures
        spec_build_children_flat(cs1, i, done) == if i == k {
            spec_build_children_flat(cs2, i, done)
        } else {
            spec_build_children_flat(cs2, i - 1, done)
        },
    decreases cs1.len() - i,
{
    assert(cs2.len() == cs1.len() - 1);
    assert(forall|j: int| 0 <= j < k ==> cs2[j] == cs1[j]);
    assert(forall|j: int| k <= j < cs2.len() ==> cs2[j] == cs1[j + 1]);
    if i == k {
        lemma_build_flat_shift(cs1, cs2, k, i + 1, done);
    } else if i < cs1.len() {
        if spec_display(cs1[i].props) == Display::Hidden {
            lemma_build_flat_shift(cs1, cs2, k, i + 1, done);
        } else {
            lemma_build_flat_shift(cs1, cs2, k, i + 1, done.push(spec_build_box(cs1[i])));
        }
    }
}

/// Whether `path` leads from `s` to a node whose `k`-th child computes to
/// display `none`, with the first-child text premise of
/// `lemma_display_none_excluded` holding at that node.
pub open spec fn drop_site_ok(s: StyleNodeV, path: Seq<int>, k: int) -> bool
    decreases path.len(),
{
    if path.len() == 0 {
        &&& 0 <= k < s.children.len()
        &&& spec_display(s.children[k].props) == Display::Hidden
        &&& (k > 0 || s.children[k].text == (if s.children.len() > 1 {
            s.children[1].text
        } else {
            None
        }))
    } else {
        &&& 0 <= path[0] < s.children.len()
        &&& drop_site_ok(s.children[path[0]], path.drop_first(), k)
    }
}

/// The tree `s` with the `k`-th child of the node reached by `path`
/// dropped, subtree and all.
pub open spec fn drop_hidden_at(s: StyleNodeV, path: Seq<int>, k: int) -> StyleNodeV
    decreases path.len(),
{
    if path.len() == 0 {
        StyleNodeV { children: s.children.take(k) + s.children.skip(k + 1), ..s }
    } else if 0 <= path[0] < s.children.len() {
        StyleNodeV {
            children: s.children.update(
                path[0],
                drop_hidden_at(s.children[path[0]], path.drop_first(), k),
            ),
            ..s
        }
    } else {
        s
    }
}

/// The children fold of a block parent depends on its children only
/// through their display kinds and their built boxes.
proof fn lemma_build_children_block_congruent(
    cs1: Seq<StyleNodeV>,
    cs2: Seq<StyleNodeV>,
    i: int,
    done: Seq<LayoutBoxV>,
    pending: Option<Seq<LayoutBoxV>>,
)
    requires
        0 <= i,
        cs1.len() == cs2.len(),
        forall|j: int|
            0 <= j < cs1.len() ==> spec_display(#[trigger] cs2[j].props) == spec_display(
                cs1[j].props,
            ),
        forall|j: int|
            0 <= j < cs1.len() ==> spec_build_box(#[trigger] cs2[j]) == spec_build_box(cs1[j]),
    ensures
        spec_build_children_block(cs1, i, done, pending) == spec_build_children_block(
            cs2,
            i,
            done,
            pending,
        ),
    decreases cs1.len() - i,
{
    if i < cs1.len() {
        match spec_display(cs1[i].props) {
            Display::Hidden => {
                lemma_build_children_block_congruent(cs1, cs2, i + 1, done, pending);
            },
            Display::Block => {
                let done2 = match pending {
                    Some(ps) => done.push(anonymous_box(ps)),
                    None => done,
                };
                lemma_build_children_block_congruent(
                    cs1,
                    cs2,
                    i + 1,
                    done2.push(spec_build_box(cs1[i])),
                    None,
                );
            },
            Display::Inline => {
                let ps = match pending {
                    Some(ps) => ps,
                    None => Seq::empty(),
                };
                lemma_build_children_block_congruent(
                    cs1,
                    cs2,
                    i + 1,
                    done,
                    Some(ps.push(spec_build_box(cs1[i]))),
                );
            },
        }
    }
}

/// The children fold of an inline or anonymous parent, likewise.
proof fn lemma_build_children_flat_congruent(
    cs1: Seq<StyleNodeV>,
    cs2: Seq<StyleNodeV>,
    i: int,
    done: Seq<LayoutBoxV>,
)
    requires
        0 <= i,
        cs1.len() == cs2.len(),
        forall|j: int|
            0 <= j < cs1.len() ==> spec_display(#[trigger] cs2[j].props) == spec_display(
                cs1[j].props,
            ),
        forall|j: int|
            0 <= j < cs1.len() ==> spec_build_box(#[trigger] cs2[j]) == spec_build_box(cs1[j]),
    ensures
        spec_build_children_flat(cs1, i, done) == spec_build_children_flat(cs2, i, done),
    decreases cs1.len() - i,
{
    if i < cs1.len() {
        if spec_display(cs1[i].props) == Display::Hidden {
            lemma_build_children_flat_congruent(cs1, cs2, i + 1, done);
        } else {
            lemma_build_children_flat_congruent(
                cs1,
                cs2,
                i + 1,
                done.push(spec_build_box(cs1[i])),
            );
        }
    }
}

/// The display-none exclusion at any depth: dropping a hidden-rooted
/// subtree anywhere in the styled tree, its own descendants' displays
/// notwithstanding, leaves the built box tree unchanged; siblings and the
/// rest of the tree are untouched. The premise at the removal site is that
/// of `lemma_display_none_excluded`.
pub proof fn lemma_display_none_excluded_deep(s: StyleNodeV, path: Seq<int>, k: int)
    requires
        drop_site_ok(s, path, k),
    ensures
        spec_build_box(drop_hidden_at(s, path, k)) == spec_build_box(s),
    decreases path.len(),
{
    if path.len() == 0 {
        lemma_display_none_excluded(s, k);
    } else {
        let i = path[0];
        let c2 = drop_hidden_at(s.children[i], path.drop_first(), k);
        lemma_display_none_excluded_deep(s.children[i], path.drop_first(), k);
        let s2 = drop_hidden_at(s, path, k);
        assert(s2.children == s.children.update(i, c2));
        assert(s2.children.len() == s.children.len());
        assert(forall|j: int|
            0 <= j < s.children.len() && j != i ==> s2.children[j] == #[trigger] s.children[j]);
        assert(s2.children[i] == c2);
        assert(c2.props == s.children[i].props);
        assert(c2.text == s.children[i].text);
        assert(forall|j: int|
            0 <= j < s.children.len() ==> spec_display(#[trigger] s2.children[j].props)
                == spec_display(s.children[j].props));
        assert(forall|j: int|
            0 <= j < s.children.len() ==> spec_build_box(#[trigger] s2.children[j])
                == spec_build_box(s.children[j]));
        lemma_build_children_block_congruent(s.children, s2.children, 0, Seq::empty(), None);
        lemma_build_children_flat_congruent(s.children, s2.children, 0, Seq::empty());
        assert(spec_box_style(s2) == spec_box_style(s)) by {
            if s.children.len() > 0 {
                assert(s2.children[0].text == s.children[0].text);
            }
        }
        assert(spec_build_box(s2) == spec_build_box(s));
    }
}

/// Executable build of the layout tree; the styled node is consumed, so
/// the boxes own their style data. Display `none` on the root is excluded,
/// as block layout has no box for it.
pub fn build_layout_tree(style_node: StyleNode) -> (r: LayoutBox)
    requires
        spec_display(style_node@.props) != Display::Hidden,
    ensures
        r@ == spec_build_box(style_node@),
    decreases style_node, 0int, 0int,
{
    let ghost snv = style_node@;
    let d = style_node.display();
    let StyleNode { text: _, style_values, children } = style_node;
    proof {
        crate::styles::lemma_stylenodes_view(children, 0);
    }
    let first_text: Option<String> = if children.len() > 0 {
        match &children[0].text {
            Some(t) => Some(t.clone()),
            None => None,
        }
    } else {
        None
    };
    let bs = BoxStyle { style_values, first_text };
    proof {
        assert(bs@ == spec_box_style(snv));
    }
    let ghost origv = children;
    if matches!(d, Display::Block) {
        let box_type = BoxType::BlockNode(bs);
        let empty_done: Vec<LayoutBox> = Vec::new();
        let empty_pending: Vec<LayoutBox> = Vec::new();
        proof {
            lemma_layoutboxes_view(empty_done, 0);
            lemma_layoutboxes_view(empty_pending, 0);
            assert(layoutboxes_view(empty_done, 0) =~= Seq::<LayoutBoxV>::empty());
            assert(layoutboxes_view(empty_pending, 0) =~= Seq::<LayoutBoxV>::empty());
        }
        let kids = build_children_block(
            children,
            empty_done,
            empty_pending,
            false,
            Ghost(origv),
            Ghost(0),
        );
        let r = LayoutBox { dimensions: Dimension::zeroed(), box_type, children: kids };
        proof {
            assert(r@ == spec_build_box(snv));
        }
        r
    } else {
        let box_type = BoxType::InlineNode(bs);
        let empty_done: Vec<LayoutBox> = Vec::new();
        proof {
            lemma_layoutboxes_view(empty_done, 0);
            assert(layoutboxes_view(empty_done, 0) =~= Seq::<LayoutBoxV>::empty());
        }
        let kids = build_children_flat(children, empty_done, Ghost(origv), Ghost(0));
        let r = LayoutBox { dimensions: Dimension::zeroed(), box_type, children: kids };
        proof {
            assert(r@ == spec_build_box(snv));
        }
        r
    }
}

/// Build the boxes of a block parent's children from index `k` on.
fn build_children_block(
    mut cs: Vec<StyleNode>,
    done: Vec<LayoutBox>,
    pending: Vec<LayoutBox>,
    pending_active: bool,
    Ghost(origv): Ghost<Vec<StyleNode>>,
    Ghost(k): Ghost<int>,
) -> (r: Vec<LayoutBox>)
    requires
        0 <= k <= origv@.len(),
        cs@ =~= origv@.skip(k),
        !pending_active ==> pending@.len() == 0,
    ensures
        layoutboxes_view(r, 0) == spec_build_children_block(
            stylenodes_view(origv, 0),
            k,
            layoutboxes_view(done, 0),
            if pending_active {
                Some(layoutboxes_view(pending, 0))
            } else {
                None
            },
        ),
    decreases origv, origv@.len() - k, 1int,
{
    proof {
        crate::styles::lemma_stylenodes_view(origv, 0);
    }
    let ghost snseq = stylenodes_view(origv, 0);
    if cs.len() == 0 {
        if pending_active {
            let mut done2 = done;
            let ghost oldvec = done2;
            let ghost donev = layoutboxes_view(done2, 0);
            let anon = LayoutBox {
                dimensions: Dimension::zeroed(),
                box_type: BoxType::AnonymousBlock,
                children: pending,
            };
            let ghost anonv = anon@;
            done2.push(anon);
            proof {
                lemma_layoutboxes_view(done2, 0);
                lemma_layoutboxes_view(oldvec, 0);
                assert(layoutboxes_view(done2, 0) =~= donev.push(anonv));
            }
            done2
        } else {
            done
        }
    } else {
        let c = cs.remove(0);
        let ghost cv = stylenode_view(c);
        proof {
            assert(origv@.skip(k)[0] == origv@[k]);
            assert(cv == snseq[k]);
            assert(cs@ =~= origv@.skip(k + 1));
        }
        let disp = c.display();
        match disp {
            Display::Hidden => {
                build_children_block(cs, done, pending, pending_active, Ghost(origv), Ghost(k + 1))
            },
            Display::Block => {
                let mut done2 = done;
                if pending_active {
                    let ghost oldvec = done2;
                    let ghost donev = layoutboxes_view(done2, 0);
                    let anon = LayoutBox {
                        dimensions: Dimension::zeroed(),
                        box_type: BoxType::AnonymousBlock,
                        children: pending,
                    };
                    let ghost anonv = anon@;
                    done2.push(anon);
                    proof {
                        lemma_layoutboxes_view(done2, 0);
                        lemma_layoutboxes_view(oldvec, 0);
                        assert(layoutboxes_view(done2, 0) =~= donev.push(anonv));
                    }
                } else {
                    // `pending` is empty; nothing to flush.
                    let _unused = pending;
                }
                let ghost oldvec2 = done2;
                let ghost donev2 = layoutboxes_view(done2, 0);
                let cb = build_layout_tree(c);
                let ghost cbv = cb@;
                done2.push(cb);
                proof {
                    lemma_layoutboxes_view(done2, 0);
                    lemma_layoutboxes_view(oldvec2, 0);
                    assert(layoutboxes_view(done2, 0) =~= donev2.push(cbv));
                }
                build_children_block(cs, done2, Vec::new(), false, Ghost(origv), Ghost(k + 1))
            },
            Display::Inline => {
                let mut p2 = pending;
                let ghost oldp = p2;
                let ghost pv = layoutboxes_view(p2, 0);
                let cb = build_layout_tree(c);
                let ghost cbv = cb@;
                p2.push(cb);
                proof {
                    lemma_layoutboxes_view(p2, 0);
                    lemma_layoutboxes_view(oldp, 0);
                    assert(layoutboxes_view(p2, 0) =~= pv.push(cbv));
                    if !pending_active {
                        assert(pv.len() == 0);
                        assert(pv =~= Seq::<LayoutBoxV>::empty());
                    }
                }
                build_children_block(cs, done, p2, true, Ghost(origv), Ghost(k + 1))
            },
        }
    }
}

/// Build the boxes of an inline or anonymous parent's children from index
/// `k` on.
fn build_children_flat(
    mut cs: Vec<StyleNode>,
    done: Vec<LayoutBox>,
    Ghost(origv): Ghost<Vec<StyleNode>>,
    Ghost(k): Ghost<int>,
) -> (r: Vec<LayoutBox>)
    requires
        0 <= k <= origv@.len(),
        cs@ =~= origv@.skip(k),
    ensures
        layoutboxes_view(r, 0) == spec_build_children_flat(
            stylenodes_view(origv, 0),
            k,
            layoutboxes_view(done, 0),
        ),
    decreases origv, origv@.len() - k, 1int,
{
    proof {
        crate::styles::lemma_stylenodes_view(origv, 0);
    }
    let ghost snseq = stylenodes_view(origv, 0);
    if cs.len() == 0 {
        done
    } else {
        let c = cs.remove(0);
        let ghost cv = stylenode_view(c);
        proof {
            assert(origv@.skip(k)[0] == origv@[k]);
            assert(cv == snseq[k]);
            assert(cs@ =~= origv@.skip(k + 1));
        }
        let disp = c.display();
        match disp {
            Display::Hidden => {
                build_children_flat(cs, done, Ghost(origv), Ghost(k + 1))
            },
            _ => {
                let mut done2 = done;
                let ghost oldvec = done2;
                let ghost donev = layoutboxes_view(done2, 0);
                let cb = build_layout_tree(c);
                let ghost cbv = cb@;
                done2.push(cb);
                proof {
                    lemma_layoutboxes_view(done2, 0);
                    lemma_layoutboxes_view(oldvec, 0);
                    assert(layoutboxes_view(done2, 0) =~= donev.push(cbv));
                }
                build_children_flat(cs, done2, Ghost(origv), Ghost(k + 1))
            },
        }
    }
}

/// The pixel value a property value contributes: lengths themselves,
/// anything else zero.
pub open spec fn to_px(v: ValueV) -> int {
    match v {
        ValueV::Length(l, _) => l,
        _ => 0,
    }
}

pub open spec fn is_auto(v: ValueV) -> bool {
    v == ValueV::Keyword("auto"@)
}

/// Truncating halving, as the even split of leftover space.
pub open spec fn spec_half(u: int) -> int {
    if u >= 0 {
        u / 2
    } else {
        -((-u) / 2)
    }
}

/// The resolved horizontal quantities of one block box.
pub struct WidthsV {
    pub width: int,
    pub margin_left: int,
    pub margin_right: int,
    pub border_left: int,
    pub border_right: int,
    pub padding_left: int,
    pub padding_right: int,
}

pub open spec fn spec_width_value(props: Map<Seq<char>, ValueV>) -> ValueV {
    match spec_value_of(props, "width"@) {
        Some(v) => v,
        None => ValueV::Keyword("auto"@),
    }
}

/// The CSS2-style under/over-constrained width solve, on the containing
/// block's content width.
pub open spec fn spec_solve_width(props: Map<Seq<char>, ValueV>, cbw: int) -> WidthsV {
    let zero = ValueV::Length(0, Unit::Px);
    let width0 = spec_width_value(props);
    let ml0 = spec_lookup(props, "margin-left"@, "margin"@, zero);
    let mr0 = spec_lookup(props, "margin-right"@, "margin"@, zero);
    let bl = to_px(spec_lookup(props, "border-left-width"@, "border-width"@, zero));
    let br = to_px(spec_lookup(props, "border-right-width"@, "border-width"@, zero));
    let pl = to_px(spec_lookup(props, "padding-left"@, "padding"@, zero));
    let pr = to_px(spec_lookup(props, "padding-right"@, "padding"@, zero));
    let total = to_px(ml0) + to_px(mr0) + bl + br + pl + pr + to_px(width0);
    let over = !is_auto(width0) && total > cbw;
    let ml1 = if over && is_auto(ml0) {
        zero
    } else {
        ml0
    };
    let mr1 = if over && is_auto(mr0) {
        zero
    } else {
        mr0
    };
    let underflow = cbw - total;
    let base = WidthsV {
        width: clamp_px(to_px(width0)),
        margin_left: clamp_px(to_px(ml1)),
        margin_right: clamp_px(to_px(mr1)),
        border_left: clamp_px(bl),
        border_right: clamp_px(br),
        padding_left: clamp_px(pl),
        padding_right: clamp_px(pr),
    };
    if !is_auto(width0) && !is_auto(ml1) && !is_auto(mr1) {
        WidthsV { margin_right: clamp_px(to_px(mr1) + underflow), ..base }
    } else if !is_auto(width0) && !is_auto(ml1) && is_auto(mr1) {
        WidthsV { margin_right: clamp_px(underflow), ..base }
    } else if !is_auto(width0) && is_auto(ml1) && !is_auto(mr1) {
        WidthsV { margin_left: clamp_px(underflow), ..base }
    } else if is_auto(width0) {
        let ml2 = if is_auto(ml1) {
            0
        } else {
            to_px(ml1)
        };
        let mr2 = if is_auto(mr1) {
            0
        } else {
            to_px(mr1)
        };
        if underflow >= 0 {
            WidthsV {
                width: clamp_px(underflow),
                margin_left: clamp_px(ml2),
                margin_right: clamp_px(mr2),
                ..base
            }
        } else {
            WidthsV {
                width: 0,
                margin_left: clamp_px(ml2),
                margin_right: clamp_px(mr2 + underflow),
                ..base
            }
        }
    } else {
        let half = spec_half(underflow);
        WidthsV { margin_left: clamp_px(half), margin_right: clamp_px(underflow - half), ..base }
    }
}

/// The resolved vertical edges of one block box; `auto` is not special
/// vertically and resolves to zero like any keyword.
pub struct VerticalsV {
    pub margin_top: int,
    pub margin_bottom: int,
    pub border_top: int,
    pub border_bottom: int,
    pub padding_top: int,
    pub padding_bottom: int,
}

pub open spec fn spec_vertical_edges(props: Map<Seq<char>, ValueV>) -> VerticalsV {
    let zero = ValueV::Length(0, Unit::Px);
    VerticalsV {
        margin_top: clamp_px(to_px(spec_lookup(props, "margin-top"@, "margin"@, zero))),
        margin_bottom: clamp_px(to_px(spec_lookup(props, "margin-bottom"@, "margin"@, zero))),
        border_top: clamp_px(to_px(spec_lookup(props, "border-top-width"@, "border-width"@, zero))),
        border_bottom: clamp_px(
            to_px(spec_lookup(props, "border-bottom-width"@, "border-width"@, zero)),
        ),
        padding_top: clamp_px(to_px(spec_lookup(props, "padding-top"@, "padding"@, zero))),
        padding_bottom: clamp_px(to_px(spec_lookup(props, "padding-bottom"@, "padding"@, zero))),
    }
}

/// A rectangle grown by edges: position moves up-left, size swells.
pub open spec fn spec_expanded(r: RectV, e: EdgeSizeV) -> RectV {
    RectV {
        x: r.x - e.left,
        y: r.y - e.top,
        width: r.width + e.left + e.right,
        height: r.height + e.top + e.bottom,
    }
}

pub open spec fn spec_padding_box(d: DimensionV) -> RectV {
    spec_expanded(d.content, d.padding)
}

pub open spec fn spec_border_box(d: DimensionV) -> RectV {
    spec_expanded(spec_padding_box(d), d.border)
}

pub open spec fn spec_margin_box(d: DimensionV) -> RectV {
    spec_expanded(spec_border_box(d), d.margin)
}

/// The geometry a block box has before its children are laid out: width
/// solved, position below the containing block's stacked content.
pub open spec fn spec_block_start_dims(
    b: LayoutBoxV,
    props: Map<Seq<char>, ValueV>,
    cb: DimensionV,
) -> DimensionV {
    let w = spec_solve_width(props, cb.content.width);
    let v = spec_vertical_edges(props);
    let x = clamp_px(cb.content.x + w.margin_left + w.border_left + w.padding_left);
    let y = clamp_px(cb.content.y + cb.content.height + v.margin_top + v.border_top
        + v.padding_top);
    DimensionV {
        content: RectV { x, y, width: w.width, height: b.dimensions.content.height },
        padding: EdgeSizeV {
            left: w.padding_left,
            right: w.padding_right,
            top: v.padding_top,
            bottom: v.padding_bottom,
        },
        border: EdgeSizeV {
            left: w.border_left,
            right: w.border_right,
            top: v.border_top,
            bottom: v.border_bottom,
        },
        margin: EdgeSizeV {
            left: w.margin_left,
            right: w.margin_right,
            top: v.margin_top,
            bottom: v.margin_bottom,
        },
    }
}

/// Lay out a box against its containing block: blocks run the width,
/// position, children and height steps; inline and anonymous boxes are
/// left as they are at this stage.
pub open spec fn spec_layout(b: LayoutBoxV, cb: DimensionV) -> LayoutBoxV
    decreases b, 1int,
{
    match b.box_type {
        BoxTypeV::BlockNode(st) => spec_layout_block(b, st.props, cb),
        _ => b,
    }
}

pub open spec fn spec_layout_block(
    b: LayoutBoxV,
    props: Map<Seq<char>, ValueV>,
    cb: DimensionV,
) -> LayoutBoxV
    decreases b, 0int,
{
    let d0 = spec_block_start_dims(b, props, cb);
    let cres = spec_layout_children(b.children, 0, d0);
    let h = match spec_value_of(props, "height"@) {
        Some(v) => match v {
            ValueV::Length(l, Unit::Px) => clamp_px(l),
            _ => cres.1,
        },
        None => cres.1,
    };
    LayoutBoxV {
        dimensions: DimensionV { content: RectV { height: h, ..d0.content }, ..d0 },
        box_type: b.box_type,
        children: cres.0,
    }
}

/// Lay the children out in source order; each child is laid against the
/// parent's current geometry, whose content height then grows by the
/// child's whole margin-box height.
pub open spec fn spec_layout_children(cs: Seq<LayoutBoxV>, i: int, d: DimensionV) -> (
    Seq<LayoutBoxV>,
    int,
)
    decreases cs, cs.len() - i,
{
    if 0 <= i < cs.len() {
        let c2 = spec_layout(cs[i], d);
        let newh = clamp_px(d.content.height + spec_margin_box(c2.dimensions).height);
        let d2 = DimensionV { content: RectV { height: newh, ..d.content }, ..d };
        let rest = spec_layout_children(cs, i + 1, d2);
        (seq![c2] + rest.0, rest.1)
    } else {
        (Seq::empty(), d.content.height)
    }
}

/// Every coordinate stored in a dimension is within the clamp bound.
pub open spec fn rect_clamped(r: RectV) -> bool {
    &&& -(PX_CLAMP as int) <= r.x <= PX_CLAMP as int
    &&& -(PX_CLAMP as int) <= r.y <= PX_CLAMP as int
    &&& -(PX_CLAMP as int) <= r.width <= PX_CLAMP as int
    &&& -(PX_CLAMP as int) <= r.height <= PX_CLAMP as int
}

pub open spec fn edges_clamped(e: EdgeSizeV) -> bool {
    &&& -(PX_CLAMP as int) <= e.left <= PX_CLAMP as int
    &&& -(PX_CLAMP as int) <= e.right <= PX_CLAMP as int
    &&& -(PX_CLAMP as int) <= e.top <= PX_CLAMP as int
    &&& -(PX_CLAMP as int) <= e.bottom <= PX_CLAMP as int
}

pub open spec fn dims_clamped(d: DimensionV) -> bool {
    rect_clamped(d.content) && edges_clamped(d.padding) && edges_clamped(d.border)
        && edges_clamped(d.margin)
}

pub open spec fn boxes_clamped(b: LayoutBoxV) -> bool
    decreases b,
{
    dims_clamped(b.dimensions) && (forall|j: int|
        0 <= j < b.children.len() ==> boxes_clamped(#[trigger] b.children[j]))
}

/// A freshly built box tree has all-zero geometry.
pub proof fn lemma_build_clamped(sn: StyleNodeV)
    ensures
        boxes_clamped(spec_build_box(sn)),
    decreases sn, 0int, 0int,
{
    if spec_display(sn.props) == Display::Block {
        lemma_build_children_block_clamped(sn.children, 0, Seq::empty(), None);
        assert(spec_build_box(sn).children == spec_build_children_block(
            sn.children,
            0,
            Seq::empty(),
            None,
        ));
    } else {
        lemma_build_children_flat_clamped(sn.children, 0, Seq::empty());
        assert(spec_build_box(sn).children == spec_build_children_flat(
            sn.children,
            0,
            Seq::empty(),
        ));
    }
    assert(dims_clamped(spec_build_box(sn).dimensions));
}

proof fn lemma_build_children_block_clamped(
    cs: Seq<StyleNodeV>,
    i: int,
    done: Seq<LayoutBoxV>,
    pending: Option<Seq<LayoutBoxV>>,
)
    requires
        forall|j: int| 0 <= j < done.len() ==> boxes_clamped(#[trigger] done[j]),
        match pending {
            Some(ps) => forall|j: int| 0 <= j < ps.len() ==> boxes_clamped(#[trigger] ps[j]),
            None => true,
        },
    ensures
        forall|j: int|
            0 <= j < spec_build_children_block(cs, i, done, pending).len() ==> boxes_clamped(
                #[trigger] spec_build_children_block(cs, i, done, pending)[j],
            ),
    decreases cs, cs.len() - i, 1int,
{
    if !(0 <= i < cs.len()) {
        match pending {
            Some(ps) => {
                let res = done.push(anonymous_box(ps));
                assert forall|j: int| 0 <= j < res.len() implies boxes_clamped(
                    #[trigger] res[j],
                ) by {
                    if j < done.len() {
                        assert(res[j] == done[j]);
                    } else {
                        assert(res[j] == anonymous_box(ps));
                        assert(dims_clamped(anonymous_box(ps).dimensions));
                    }
                }
                assert(spec_build_children_block(cs, i, done, pending) == res);
            },
            None => {
                assert(spec_build_children_block(cs, i, done, pending) == done);
            },
        }
    }
    if 0 <= i < cs.len() {
        match spec_display(cs[i].props) {
            Display::Hidden => {
                lemma_build_children_block_clamped(cs, i + 1, done, pending);
                assert(spec_build_children_block(cs, i, done, pending)
                    == spec_build_children_block(cs, i + 1, done, pending));
            },
            Display::Block => {
                let done2 = match pending {
                    Some(ps) => done.push(anonymous_box(ps)),
                    None => done,
                };
                assert(forall|j: int|
                    0 <= j < done2.len() ==> boxes_clamped(#[trigger] done2[j])) by {
                    match pending {
                        Some(ps) => {
                            assert(dims_clamped(anonymous_box(ps).dimensions));
                            assert(forall|j: int|
                                0 <= j < done.len() ==> done2[j] == #[trigger] done[j]);
                            assert(done2[done.len() as int] == anonymous_box(ps));
                        },
                        None => {},
                    }
                }
                lemma_build_clamped(cs[i]);
                let done3 = done2.push(spec_build_box(cs[i]));
                assert(forall|j: int|
                    0 <= j < done3.len() ==> boxes_clamped(#[trigger] done3[j])) by {
                    assert(forall|j: int|
                        0 <= j < done2.len() ==> done3[j] == #[trigger] done2[j]);
                    assert(done3[done2.len() as int] == spec_build_box(cs[i]));
                }
                lemma_build_children_block_clamped(cs, i + 1, done3, None);
                assert(spec_build_children_block(cs, i, done, pending)
                    == spec_build_children_block(cs, i + 1, done3, None));
            },
            Display::Inline => {
                let ps = match pending {
                    Some(ps) => ps,
                    None => Seq::empty(),
                };
                lemma_build_clamped(cs[i]);
                let ps2 = ps.push(spec_build_box(cs[i]));
                assert(forall|j: int| 0 <= j < ps2.len() ==> boxes_clamped(#[trigger] ps2[j]))
                    by {
                    assert(forall|j: int| 0 <= j < ps.len() ==> ps2[j] == #[trigger] ps[j]);
                    assert(ps2[ps.len() as int] == spec_build_box(cs[i]));
                }
                lemma_build_children_block_clamped(cs, i + 1, done, Some(ps2));
                assert(spec_build_children_block(cs, i, done, pending)
                    == spec_build_children_block(cs, i + 1, done, Some(ps2)));
            },
        }
    }
}

proof fn lemma_build_children_flat_clamped(cs: Seq<StyleNodeV>, i: int, done: Seq<LayoutBoxV>)
    requires
        forall|j: int| 0 <= j < done.len() ==> boxes_clamped(#[trigger] done[j]),
    ensures
        forall|j: int|
            0 <= j < spec_build_children_flat(cs, i, done).len() ==> boxes_clamped(
                #[trigger] spec_build_children_flat(cs, i, done)[j],
            ),
    decreases cs, cs.len() - i, 1int,
{
    if !(0 <= i < cs.len()) {
        assert(spec_build_children_flat(cs, i, done) == done);
    }
    if 0 <= i < cs.len() {
        if spec_display(cs[i].props) == Display::Hidden {
            lemma_build_children_flat_clamped(cs, i + 1, done);
            assert(spec_build_children_flat(cs, i, done) == spec_build_children_flat(
                cs,
                i + 1,
                done,
            ));
        } else {
            lemma_build_clamped(cs[i]);
            let done2 = done.push(spec_build_box(cs[i]));
            assert(forall|j: int| 0 <= j < done2.len() ==> boxes_clamped(#[trigger] done2[j]))
                by {
                assert(forall|j: int| 0 <= j < done.len() ==> done2[j] == #[trigger] done[j]);
                assert(done2[done.len() as int] == spec_build_box(cs[i]));
            }
            lemma_build_children_flat_clamped(cs, i + 1, done2);
            assert(spec_build_children_flat(cs, i, done) == spec_build_children_flat(
                cs,
                i + 1,
                done2,
            ));
        }
    }
}

/// Layout keeps every stored coordinate within the clamp bound.
pub proof fn lemma_layout_clamped(b: LayoutBoxV, cb: DimensionV)
    requires
        boxes_clamped(b),
    ensures
        boxes_clamped(spec_layout(b, cb)),
    decreases b, 1int,
{
    match b.box_type {
        BoxTypeV::BlockNode(st) => {
            let d0 = spec_block_start_dims(b, st.props, cb);
            assert(dims_clamped(d0));
            lemma_layout_children_clamped(b.children, 0, d0);
            assert(dims_clamped(spec_layout(b, cb).dimensions));
        },
        _ => {},
    }
}

proof fn lemma_layout_children_clamped(cs: Seq<LayoutBoxV>, i: int, d: DimensionV)
    requires
        forall|j: int| 0 <= j < cs.len() ==> boxes_clamped(#[trigger] cs[j]),
    ensures
        forall|j: int|
            0 <= j < spec_layout_children(cs, i, d).0.len() ==> boxes_clamped(
                #[trigger] spec_layout_children(cs, i, d).0[j],
            ),
        -(PX_CLAMP as int) <= d.content.height <= PX_CLAMP as int
            ==> -(PX_CLAMP as int) <= spec_layout_children(cs, i, d).1 <= PX_CLAMP as int,
    decreases cs, cs.len() - i,
{
    if 0 <= i < cs.len() {
        lemma_layout_clamped(cs[i], d);
        let c2 = spec_layout(cs[i], d);
        let newh = clamp_px(d.content.height + spec_margin_box(c2.dimensions).height);
        let d2 = DimensionV { content: RectV { height: newh, ..d.content }, ..d };
        lemma_layout_children_clamped(cs, i + 1, d2);
        let rest = spec_layout_children(cs, i + 1, d2);
        assert forall|j: int|
            0 <= j < spec_layout_children(cs, i, d).0.len() implies boxes_clamped(
            #[trigger] spec_layout_children(cs, i, d).0[j],
        ) by {
            if j == 0 {
            } else {
                assert(spec_layout_children(cs, i, d).0[j] == rest.0[j - 1]);
            }
        }
    }
}

/// Bound on a property mapping whose lengths come from the stylesheet
/// parser: parsed lengths lie in `[0, PX_LIMIT]`.
pub open spec fn len_ok(v: ValueV) -> bool {
    match v {
        ValueV::Length(l, _) => 0 <= l <= crate::css::PX_LIMIT as int,
        _ => true,
    }
}

pub open spec fn props_len_ok(props: Map<Seq<char>, ValueV>) -> bool {
    forall|n: Seq<char>| props.contains_key(n) ==> len_ok(#[trigger] props[n])
}

/// Width solver totals: whenever `width` is not `auto`, the resolved
/// horizontal quantities add up exactly to the containing block's content
/// width — the leftover space is absorbed by the margins. The premise keeps
/// the quantities inside the clamp range, where every sum is exact.
pub proof fn lemma_width_solver_totals(props: Map<Seq<char>, ValueV>, cbw: int)
    requires
        props_len_ok(props),
        -1_000_000_000_000_000_000_000 <= cbw <= 1_000_000_000_000_000_000_000,
        !is_auto(spec_width_value(props)),
    ensures
        ({
            let w = spec_solve_width(props, cbw);
            w.margin_left + w.border_left + w.padding_left + w.width + w.padding_right
                + w.border_right + w.margin_right == cbw
        }),
{
    let zero = ValueV::Length(0, Unit::Px);
    let width0 = spec_width_value(props);
    let ml0 = spec_lookup(props, "margin-left"@, "margin"@, zero);
    let mr0 = spec_lookup(props, "margin-right"@, "margin"@, zero);
    assert(0 <= to_px(width0) <= crate::css::PX_LIMIT as int);
    assert(0 <= to_px(ml0) <= crate::css::PX_LIMIT as int);
    assert(0 <= to_px(mr0) <= crate::css::PX_LIMIT as int);
    assert(0 <= to_px(spec_lookup(props, "border-left-width"@, "border-width"@, zero))
        <= crate::css::PX_LIMIT as int);
    assert(0 <= to_px(spec_lookup(props, "border-right-width"@, "border-width"@, zero))
        <= crate::css::PX_LIMIT as int);
    assert(0 <= to_px(spec_lookup(props, "padding-left"@, "padding"@, zero))
        <= crate::css::PX_LIMIT as int);
    assert(0 <= to_px(spec_lookup(props, "padding-right"@, "padding"@, zero))
        <= crate::css::PX_LIMIT as int);
}

/// The running content heights of the children step, mirrored as a
/// predicate: true when no running total ever reaches the clamp bound, the
/// case for every real document.
pub open spec fn spec_heights_in_range(cs: Seq<LayoutBoxV>, i: int, d: DimensionV) -> bool
    decreases cs, cs.len() - i,
{
    if 0 <= i < cs.len() {
        let c2 = spec_layout(cs[i], d);
        let raw = d.content.height + spec_margin_box(c2.dimensions).height;
        let d2 = DimensionV { content: RectV { height: clamp_px(raw), ..d.content }, ..d };
        -(PX_CLAMP as int) <= raw <= PX_CLAMP as int && spec_heights_in_range(cs, i + 1, d2)
    } else {
        true
    }
}

/// The sum of the margin-box heights of a run of laid-out boxes.
pub open spec fn sum_margin_heights(cs: Seq<LayoutBoxV>) -> int
    decreases cs.len(),
{
    if cs.len() == 0 {
        0
    } else {
        spec_margin_box(cs[0].dimensions).height + sum_margin_heights(cs.drop_first())
    }
}

/// Height accumulation: laying out N children in order leaves the parent's
/// content height equal to its starting height plus the sum of the
/// children's margin-box heights, as long as no running total leaves the
/// clamp range.
pub proof fn lemma_height_accumulation(cs: Seq<LayoutBoxV>, i: int, d: DimensionV)
    requires
        0 <= i <= cs.len(),
        spec_heights_in_range(cs, i, d),
    ensures
        spec_layout_children(cs, i, d).1 == d.content.height + sum_margin_heights(
            spec_layout_children(cs, i, d).0,
        ),
    decreases cs.len() - i,
{
    if i < cs.len() {
        let c2 = spec_layout(cs[i], d);
        let raw = d.content.height + spec_margin_box(c2.dimensions).height;
        let d2 = DimensionV { content: RectV { height: clamp_px(raw), ..d.content }, ..d };
        lemma_height_accumulation(cs, i + 1, d2);
        let rest = spec_layout_children(cs, i + 1, d2);
        assert((seq![c2] + rest.0).drop_first() =~= rest.0);
        assert((seq![c2] + rest.0)[0] == c2);
    }
}

/// Height accumulation at the box level: a block box's final content
/// height is the children sum, unless an explicit pixel height overrides
/// it, in which case it is exactly that height.
pub proof fn lemma_block_height(b: LayoutBoxV, cb: DimensionV)
    requires
        b.box_type is BlockNode,
        spec_heights_in_range(
            b.children,
            0,
            spec_block_start_dims(b, b.box_type->BlockNode_0.props, cb),
        ),
    ensures
        ({
            let props = b.box_type->BlockNode_0.props;
            let r = spec_layout(b, cb);
            match spec_value_of(props, "height"@) {
                Some(v) => match v {
                    ValueV::Length(l, Unit::Px) => r.dimensions.content.height == clamp_px(l),
                    _ => r.dimensions.content.height == spec_block_start_dims(
                        b,
                        props,
                        cb,
                    ).content.height + sum_margin_heights(r.children),
                },
                None => r.dimensions.content.height == spec_block_start_dims(
                    b,
                    props,
                    cb,
                ).content.height + sum_margin_heights(r.children),
            }
        }),
{
    let props = b.box_type->BlockNode_0.props;
    let d0 = spec_block_start_dims(b, props, cb);
    lemma_height_accumulation(b.children, 0, d0);
}

impl BoxStyle {
    /// The computed value of a property, if any.
    pub fn value(&self, name: &str) -> (r: Option<&Value>)
        ensures
            match r {
                Some(v) => spec_value_of(self@.props, name@) == Some(v@),
                None => spec_value_of(self@.props, name@) is None,
            },
    {
        self.style_values.get(name)
    }

    /// The computed value of `name`, falling back to the shorthand
    /// `fallback`, then to `default`.
    pub fn lookup(&self, name: &str, fallback: &str, default: &Value) -> (r: Value)
        ensures
            r@ == spec_lookup(self@.props, name@, fallback@, default@),
    {
        match self.style_values.get(name) {
            Some(v) => v.duplicate(),
            None => match self.style_values.get(fallback) {
                Some(v) => v.duplicate(),
                None => default.duplicate(),
            },
        }
    }
}

/// The pixel value of a property value.
fn value_px(v: &Value) -> (r: i128)
    ensures
        r as int == to_px(v@),
        -0x8000_0000_0000_0000 <= r <= 0x7fff_ffff_ffff_ffff,
{
    match v {
        Value::Length(l, _) => *l as i128,
        _ => 0,
    }
}

/// Whether a value is the keyword `auto`.
fn value_is_auto(v: &Value) -> (r: bool)
    ensures
        r == is_auto(v@),
{
    match v {
        Value::Keyword(k) => string_is(k, "auto"),
        _ => false,
    }
}

impl Rect {
    /// This rectangle grown by the given edges.
    pub fn expanded_by(self, edge: EdgeSize) -> (r: Rect)
        requires
            -(1000 * PX_CLAMP) <= self.x <= 1000 * PX_CLAMP,
            -(1000 * PX_CLAMP) <= self.y <= 1000 * PX_CLAMP,
            -(1000 * PX_CLAMP) <= self.width <= 1000 * PX_CLAMP,
            -(1000 * PX_CLAMP) <= self.height <= 1000 * PX_CLAMP,
            edges_clamped(edge@),
        ensures
            r@ == spec_expanded(self@, edge@),
    {
        Rect {
            x: self.x - edge.left,
            y: self.y - edge.top,
            width: self.width + edge.left + edge.right,
            height: self.height + edge.top + edge.bottom,
        }
    }
}

impl Dimension {
    /// The content box grown by the padding.
    pub fn padding_box(&self) -> (r: Rect)
        requires
            dims_clamped(self@),
        ensures
            r@ == spec_padding_box(self@),
    {
        self.content.expanded_by(self.padding)
    }

    /// The padding box grown by the border.
    pub fn border_box(&self) -> (r: Rect)
        requires
            dims_clamped(self@),
        ensures
            r@ == spec_border_box(self@),
    {
        self.padding_box().expanded_by(self.border)
    }

    /// The border box grown by the margin.
    pub fn margin_box(&self) -> (r: Rect)
        requires
            dims_clamped(self@),
        ensures
            r@ == spec_margin_box(self@),
    {
        self.border_box().expanded_by(self.margin)
    }
}

/// The resolved horizontal quantities of one block box.
struct Widths {
    width: i128,
    margin_left: i128,
    margin_right: i128,
    border_left: i128,
    border_right: i128,
    padding_left: i128,
    padding_right: i128,
}

/// The width step of block layout: the CSS2-style under/over-constrained
/// solve against the containing block's content width.
fn calculate_block_width(style: &BoxStyle, block: &Dimension) -> (r: Widths)
    requires
        dims_clamped(block@),
    ensures
        ({
            let w = spec_solve_width(style@.props, block@.content.width);
            r.width as int == w.width && r.margin_left as int == w.margin_left
                && r.margin_right as int == w.margin_right && r.border_left as int
                == w.border_left && r.border_right as int == w.border_right
                && r.padding_left as int == w.padding_left && r.padding_right as int
                == w.padding_right
        }),
{
    let auto = Value::Keyword(String::from_str("auto"));
    let zero = Value::Length(0, Unit::Px);
    let width0 = match style.value("width") {
        Some(v) => v.duplicate(),
        None => auto.duplicate(),
    };
    let ml0 = style.lookup("margin-left", "margin", &zero);
    let mr0 = style.lookup("margin-right", "margin", &zero);
    let bl = value_px(&style.lookup("border-left-width", "border-width", &zero));
    let br = value_px(&style.lookup("border-right-width", "border-width", &zero));
    let pl = value_px(&style.lookup("padding-left", "padding", &zero));
    let pr = value_px(&style.lookup("padding-right", "padding", &zero));
    let total = value_px(&ml0) + value_px(&mr0) + bl + br + pl + pr + value_px(&width0);
    let w_auto = value_is_auto(&width0);
    let over = !w_auto && total > block.content.width;
    let ml_auto0 = value_is_auto(&ml0);
    let mr_auto0 = value_is_auto(&mr0);
    let ml1 = if over && ml_auto0 {
        zero.duplicate()
    } else {
        ml0
    };
    let mr1 = if over && mr_auto0 {
        zero.duplicate()
    } else {
        mr0
    };
    let ml_auto = value_is_auto(&ml1);
    let mr_auto = value_is_auto(&mr1);
    let underflow = block.content.width - total;
    let base_width = clamp128(value_px(&width0));
    let base_ml = clamp128(value_px(&ml1));
    let base_mr = clamp128(value_px(&mr1));
    if !w_auto && !ml_auto && !mr_auto {
        Widths {
            width: base_width,
            margin_left: base_ml,
            margin_right: clamp128(value_px(&mr1) + underflow),
            border_left: clamp128(bl),
            border_right: clamp128(br),
            padding_left: clamp128(pl),
            padding_right: clamp128(pr),
        }
    } else if !w_auto && !ml_auto && mr_auto {
        Widths {
            width: base_width,
            margin_left: base_ml,
            margin_right: clamp128(underflow),
            border_left: clamp128(bl),
            border_right: clamp128(br),
            padding_left: clamp128(pl),
            padding_right: clamp128(pr),
        }
    } else if !w_auto && ml_auto && !mr_auto {
        Widths {
            width: base_width,
            margin_left: clamp128(underflow),
            margin_right: base_mr,
            border_left: clamp128(bl),
            border_right: clamp128(br),
            padding_left: clamp128(pl),
            padding_right: clamp128(pr),
        }
    } else if w_auto {
        let ml2: i128 = if ml_auto {
            0
        } else {
            value_px(&ml1)
        };
        let mr2: i128 = if mr_auto {
            0
        } else {
            value_px(&mr1)
        };
        if underflow >= 0 {
            Widths {
                width: clamp128(underflow),
                margin_left: clamp128(ml2),
                margin_right: clamp128(mr2),
                border_left: clamp128(bl),
                border_right: clamp128(br),
                padding_left: clamp128(pl),
                padding_right: clamp128(pr),
            }
        } else {
            Widths {
                width: 0,
                margin_left: clamp128(ml2),
                margin_right: clamp128(mr2 + underflow),
                border_left: clamp128(bl),
                border_right: clamp128(br),
                padding_left: clamp128(pl),
                padding_right: clamp128(pr),
            }
        }
    } else {
        let half: i128 = if underflow >= 0 {
            underflow / 2
        } else {
            -((-underflow) / 2)
        };
        proof {
            assert(half as int == spec_half(underflow as int));
        }
        Widths {
            width: base_width,
            margin_left: clamp128(half),
            margin_right: clamp128(underflow - half),
            border_left: clamp128(bl),
            border_right: clamp128(br),
            padding_left: clamp128(pl),
            padding_right: clamp128(pr),
        }
    }
}

impl LayoutBox {
    /// Lay this box out against its containing block. Only block boxes
    /// have geometry computed; inline and anonymous boxes pass through.
    pub fn layout(self, containing: &Dimension) -> (r: LayoutBox)
        requires
            boxes_clamped(self@),
            dims_clamped(containing@),
        ensures
            r@ == spec_layout(self@, containing@),
            boxes_clamped(r@),
    decreases self, 1int,
    {
        proof {
            lemma_layout_clamped(self@, containing@);
        }
        let is_block = matches!(&self.box_type, BoxType::BlockNode(_));
        if !is_block {
            return self;
        }
        let ghost bv = self@;
        let ghost props = self@.box_type->BlockNode_0.props;
        // Width step.
        let w = match &self.box_type {
            BoxType::BlockNode(st) => calculate_block_width(st, containing),
            _ => {
                proof {
                    assert(false);
                }
                Widths {
                    width: 0,
                    margin_left: 0,
                    margin_right: 0,
                    border_left: 0,
                    border_right: 0,
                    padding_left: 0,
                    padding_right: 0,
                }
            },
        };
        // Position step.
        let zero = Value::Length(0, Unit::Px);
        let (vmt, vmb, vbt, vbb, vpt, vpb) = match &self.box_type {
            BoxType::BlockNode(st) => (
                clamp128(value_px(&st.lookup("margin-top", "margin", &zero))),
                clamp128(value_px(&st.lookup("margin-bottom", "margin", &zero))),
                clamp128(value_px(&st.lookup("border-top-width", "border-width", &zero))),
                clamp128(value_px(&st.lookup("border-bottom-width", "border-width", &zero))),
                clamp128(value_px(&st.lookup("padding-top", "padding", &zero))),
                clamp128(value_px(&st.lookup("padding-bottom", "padding", &zero))),
            ),
            _ => (0, 0, 0, 0, 0, 0),
        };
        let explicit_height: Option<i128> = match &self.box_type {
            BoxType::BlockNode(st) => match st.value("height") {
                Some(v) => match v {
                    Value::Length(l, Unit::Px) => Some(*l as i128),
                    _ => None,
                },
                None => None,
            },
            _ => None,
        };
        let x = clamp128(containing.content.x + w.margin_left + w.border_left + w.padding_left);
        let y = clamp128(
            containing.content.y + containing.content.height + vmt + vbt + vpt,
        );
        let LayoutBox { dimensions, box_type, children } = self;
        let d0 = Dimension {
            content: Rect { x, y, width: w.width, height: dimensions.content.height },
            padding: EdgeSize { left: w.padding_left, right: w.padding_right, top: vpt, bottom: vpb },
            border: EdgeSize { left: w.border_left, right: w.border_right, top: vbt, bottom: vbb },
            margin: EdgeSize { left: w.margin_left, right: w.margin_right, top: vmt, bottom: vmb },
        };
        proof {
            assert(d0@ == spec_block_start_dims(bv, props, containing@));
        }
        let ghost origv = children;
        proof {
            lemma_layoutboxes_view(children, 0);
            assert forall|j: int| 0 <= j < children@.len() implies boxes_clamped(
                layoutbox_view(#[trigger] children@[j]),
            ) by {
                assert(bv.children[j] == layoutbox_view(children@[j]));
                assert(boxes_clamped(bv.children[j]));
            }
        }
        let cres = Self::layout_block_children(children, d0, Ghost(origv), Ghost(0));
        let (kids, h0) = cres;
        let final_h: i128 = match explicit_height {
            Some(l) => clamp128(l),
            None => h0,
        };
        let r = LayoutBox {
            dimensions: Dimension {
                content: Rect { height: final_h, ..d0.content },
                ..d0
            },
            box_type,
            children: kids,
        };
        proof {
            assert(r@ == spec_layout_block(bv, props, containing@));
        }
        r
    }

    /// The children step: lay each child against the parent's current
    /// geometry, then grow the parent's content height by the child's
    /// margin-box height.
    fn layout_block_children(
        mut cs: Vec<LayoutBox>,
        d: Dimension,
        Ghost(origv): Ghost<Vec<LayoutBox>>,
        Ghost(k): Ghost<int>,
    ) -> (r: (Vec<LayoutBox>, i128))
        requires
            0 <= k <= origv@.len(),
            cs@ =~= origv@.skip(k),
            forall|j: int|
                k <= j < origv@.len() ==> boxes_clamped(layoutbox_view(#[trigger] origv@[j])),
            dims_clamped(d@),
        ensures
            layoutboxes_view(r.0, 0) == spec_layout_children(layoutboxes_view(origv, 0), k, d@).0,
            r.1 as int == spec_layout_children(layoutboxes_view(origv, 0), k, d@).1,
        decreases origv, origv@.len() - k,
    {
        proof {
            lemma_layoutboxes_view(origv, 0);
        }
        let ghost bseq = layoutboxes_view(origv, 0);
        if cs.len() == 0 {
            let out: Vec<LayoutBox> = Vec::new();
            proof {
                lemma_layoutboxes_view(out, 0);
                assert(layoutboxes_view(out, 0) =~= spec_layout_children(bseq, k, d@).0);
            }
            (out, d.content.height)
        } else {
            let c = cs.remove(0);
            proof {
                assert(origv@.skip(k)[0] == origv@[k]);
                assert(c@ == bseq[k]);
                assert(cs@ =~= origv@.skip(k + 1));
            }
            let c2 = c.layout(&d);
            let mbh = c2.dimensions.margin_box().height;
            let newh = clamp128(d.content.height + mbh);
            let d2 = Dimension { content: Rect { height: newh, ..d.content }, ..d };
            let rest = Self::layout_block_children(cs, d2, Ghost(origv), Ghost(k + 1));
            let (mut kids, h) = rest;
            let ghost kidspre = kids;
            kids.insert(0, c2);
            proof {
                lemma_layoutboxes_view(kids, 0);
                lemma_layoutboxes_view(kidspre, 0);
                assert(layoutboxes_view(kids, 0) =~= seq![spec_layout(bseq[k], d@)]
                    + spec_layout_children(bseq, k + 1, d2@).0);
            }
            (kids, h)
        }
    }
}

/// The layout tree of a styled node against a viewport: build the boxes,
/// then lay them out. The viewport height does not enter block layout: the
/// containing block starts with zero stacked content.
pub fn layout_tree(width: u32, height: u32, node: StyleNode) -> (r: LayoutBox)
    requires
        spec_display(node@.props) != Display::Hidden,
    ensures
        r@ == spec_layout(spec_build_box(node@), spec_viewport(width, height)),
{
    let _ = height;
    let containing = Dimension {
        content: Rect { x: 0, y: 0, width: (width as i128) * 1000, height: 0 },
        padding: EdgeSize { left: 0, right: 0, top: 0, bottom: 0 },
        border: EdgeSize { left: 0, right: 0, top: 0, bottom: 0 },
        margin: EdgeSize { left: 0, right: 0, top: 0, bottom: 0 },
    };
    let root_box = build_layout_tree(node);
    proof {
        lemma_build_clamped(node@);
    }
    root_box.layout(&containing)
}

/// The containing block a viewport gives the root box: the width in
/// subpixel units, no stacked content yet.
pub open spec fn spec_viewport(width: u32, height: u32) -> DimensionV {
    DimensionV {
        content: RectV { x: 0, y: 0, width: width * 1000, height: 0 },
        padding: zero_edges(),
        border: zero_edges(),
        margin: zero_edges(),
    }
}

} // verus!
