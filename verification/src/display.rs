use vstd::prelude::*;
use crate::boxmodel::{
    boxes_clamped,
    spec_border_box,
    BoxType,
    BoxTypeV,
    LayoutBox,
    LayoutBoxV,
    Rect,
    RectV,
};
use crate::css::{Color, Value, ValueV};
use crate::styles::spec_value_of;

verus! {

broadcast use vstd::std_specs::vec::axiom_vec_index_decreases;

/// One paint operation: a filled rectangle, or a string drawn over a
/// rectangle.
#[derive(Debug)]
pub enum DisplayCommand {
    SolidColor(Color, Rect),
    Text(Color, Rect, String),
}

pub enum DisplayCommandV {
    SolidColor(Color, RectV),
    Text(Color, RectV, Seq<char>),
}

impl View for DisplayCommand {
    type V = DisplayCommandV;

    open spec fn view(&self) -> DisplayCommandV {
        match self {
            DisplayCommand::SolidColor(c, r) => DisplayCommandV::SolidColor(*c, r@),
            DisplayCommand::Text(c, r, t) => DisplayCommandV::Text(*c, r@, t@),
        }
    }
}

/// The colour a box's style gives the property `name`, if it is a colour.
pub open spec fn spec_get_color(bt: BoxTypeV, name: Seq<char>) -> Option<Color> {
    match bt {
        BoxTypeV::BlockNode(st) => match spec_value_of(st.props, name) {
            Some(v) => match v {
                ValueV::Color(c) => Some(c),
                _ => None,
            },
            None => None,
        },
        BoxTypeV::InlineNode(st) => match spec_value_of(st.props, name) {
            Some(v) => match v {
                ValueV::Color(c) => Some(c),
                _ => None,
            },
            None => None,
        },
        BoxTypeV::AnonymousBlock => None,
    }
}

/// The background: one rectangle over the border box, if a background
/// colour is set.
pub open spec fn spec_render_background(b: LayoutBoxV) -> Seq<DisplayCommandV> {
    match spec_get_color(b.box_type, "background"@) {
        Some(c) => seq![DisplayCommandV::SolidColor(c, spec_border_box(b.dimensions))],
        None => Seq::empty(),
    }
}

/// The borders: four edge rectangles of the border box, emitted whenever a
/// border colour is set, whatever the border widths.
pub open spec fn spec_render_borders(b: LayoutBoxV) -> Seq<DisplayCommandV> {
    match spec_get_color(b.box_type, "border-color"@) {
        None => Seq::empty(),
        Some(c) => {
            let d = b.dimensions;
            let bb = spec_border_box(d);
            seq![
                DisplayCommandV::SolidColor(
                    c,
                    RectV { x: bb.x, y: bb.y, width: d.border.left, height: bb.height },
                ),
                DisplayCommandV::SolidColor(
                    c,
                    RectV {
                        x: bb.x + bb.width - d.border.right,
                        y: bb.y,
                        width: d.border.right,
                        height: bb.height,
                    },
                ),
                DisplayCommandV::SolidColor(
                    c,
                    RectV { x: bb.x, y: bb.y, width: bb.width, height: d.border.top },
                ),
                DisplayCommandV::SolidColor(
                    c,
                    RectV {
                        x: bb.x,
                        y: bb.y + bb.height - d.border.bottom,
                        width: bb.width,
                        height: d.border.bottom,
                    },
                ),
            ]
        },
    }
}

/// The text: the box's first-child text over the border box, if a text
/// colour is set and the styled node's first child was a text node.
pub open spec fn spec_render_text(b: LayoutBoxV) -> Seq<DisplayCommandV> {
    match spec_get_color(b.box_type, "color"@) {
        None => Seq::empty(),
        Some(c) => {
            let t = match b.box_type {
                BoxTypeV::BlockNode(st) => st.first_text,
                BoxTypeV::InlineNode(st) => st.first_text,
                BoxTypeV::AnonymousBlock => None,
            };
            match t {
                Some(text) => seq![
                    DisplayCommandV::Text(c, spec_border_box(b.dimensions), text),
                ],
                None => Seq::empty(),
            }
        },
    }
}

/// The paint commands of one box and its subtree, in back-to-front order:
/// background, then borders, then text, then the children in source order.
pub open spec fn spec_render_box(b: LayoutBoxV) -> Seq<DisplayCommandV>
    decreases b, 0int,
{
    spec_render_background(b) + spec_render_borders(b) + spec_render_text(b)
        + spec_render_children(b.children, 0)
}

pub open spec fn spec_render_children(cs: Seq<LayoutBoxV>, i: int) -> Seq<DisplayCommandV>
    decreases cs, cs.len() - i,
{
    if 0 <= i < cs.len() {
        spec_render_box(cs[i]) + spec_render_children(cs, i + 1)
    } else {
        Seq::empty()
    }
}

/// The colour a box gives property `name`, if it is a colour.
fn get_color(layout_box: &LayoutBox, name: &str) -> (r: Option<Color>)
    ensures
        r == spec_get_color(layout_box@.box_type, name@),
{
    match &layout_box.box_type {
        BoxType::BlockNode(style) => match style.value(name) {
            Some(v) => match v {
                Value::Color(c) => Some(*c),
                _ => None,
            },
            None => None,
        },
        BoxType::InlineNode(style) => match style.value(name) {
            Some(v) => match v {
                Value::Color(c) => Some(*c),
                _ => None,
            },
            None => None,
        },
        BoxType::AnonymousBlock => None,
    }
}

fn render_background(list: &mut Vec<DisplayCommand>, layout_box: &LayoutBox)
    requires
        boxes_clamped(layout_box@),
    ensures
        final(list)@.map_values(|c: DisplayCommand| c@) == old(list)@.map_values(
            |c: DisplayCommand| c@,
        ) + spec_render_background(layout_box@),
{
    let ghost pre = list@.map_values(|c: DisplayCommand| c@);
    match get_color(layout_box, "background") {
        Some(color) => {
            let rect = layout_box.dimensions.border_box();
            list.push(DisplayCommand::SolidColor(color, rect));
            proof {
                assert(list@.map_values(|c: DisplayCommand| c@) =~= pre
                    + spec_render_background(layout_box@));
            }
        },
        None => {
            proof {
                assert(pre + spec_render_background(layout_box@) =~= pre);
            }
        },
    }
}

fn render_borders(list: &mut Vec<DisplayCommand>, layout_box: &LayoutBox)
    requires
        boxes_clamped(layout_box@),
    ensures
        final(list)@.map_values(|c: DisplayCommand| c@) == old(list)@.map_values(
            |c: DisplayCommand| c@,
        ) + spec_render_borders(layout_box@),
{
    let ghost pre = list@.map_values(|c: DisplayCommand| c@);
    let color = match get_color(layout_box, "border-color") {
        Some(color) => color,
        None => {
            proof {
                assert(pre + spec_render_borders(layout_box@) =~= pre);
            }
            return ;
        },
    };
    let d = &layout_box.dimensions;
    let border_box = d.border_box();
    list.push(
        DisplayCommand::SolidColor(
            color,
            Rect {
                x: border_box.x,
                y: border_box.y,
                width: d.border.left,
                height: border_box.height,
            },
        ),
    );
    list.push(
        DisplayCommand::SolidColor(
            color,
            Rect {
                x: border_box.x + border_box.width - d.border.right,
                y: border_box.y,
                width: d.border.right,
                height: border_box.height,
            },
        ),
    );
    list.push(
        DisplayCommand::SolidColor(
            color,
            Rect {
                x: border_box.x,
                y: border_box.y,
                width: border_box.width,
                height: d.border.top,
            },
        ),
    );
    list.push(
        DisplayCommand::SolidColor(
            color,
            Rect {
                x: border_box.x,
                y: border_box.y + border_box.height - d.border.bottom,
                width: border_box.width,
                height: d.border.bottom,
            },
        ),
    );
    proof {
        assert(list@.map_values(|c: DisplayCommand| c@) =~= pre + spec_render_borders(
            layout_box@,
        ));
    }
}

fn render_text(list: &mut Vec<DisplayCommand>, layout_box: &LayoutBox)
    requires
        boxes_clamped(layout_box@),
    ensures
        final(list)@.map_values(|c: DisplayCommand| c@) == old(list)@.map_values(
            |c: DisplayCommand| c@,
        ) + spec_render_text(layout_box@),
{
    let ghost pre = list@.map_values(|c: DisplayCommand| c@);
    let color = match get_color(layout_box, "color") {
        Some(color) => color,
        None => {
            proof {
                assert(pre + spec_render_text(layout_box@) =~= pre);
            }
            return ;
        },
    };
    let text: Option<&String> = match &layout_box.box_type {
        BoxType::BlockNode(style) => match &style.first_text {
            Some(t) => Some(t),
            None => None,
        },
        BoxType::InlineNode(style) => match &style.first_text {
            Some(t) => Some(t),
            None => None,
        },
        BoxType::AnonymousBlock => None,
    };
    match text {
        Some(t) => {
            let rect = layout_box.dimensions.border_box();
            list.push(DisplayCommand::Text(color, rect, t.clone()));
            proof {
                assert(list@.map_values(|c: DisplayCommand| c@) =~= pre + spec_render_text(
                    layout_box@,
                ));
            }
        },
        None => {
            proof {
                assert(pre + spec_render_text(layout_box@) =~= pre);
            }
        },
    }
}

fn render_layout_box(list: &mut Vec<DisplayCommand>, layout_box: &LayoutBox)
    requires
        boxes_clamped(layout_box@),
    ensures
        final(list)@.map_values(|c: DisplayCommand| c@) == old(list)@.map_values(
            |c: DisplayCommand| c@,
        ) + spec_render_box(layout_box@),
    decreases *layout_box, 0int,
{
    render_background(list, layout_box);
    render_borders(list, layout_box);
    render_text(list, layout_box);
    proof {
        crate::boxmodel::lemma_layoutboxes_view(layout_box.children, 0);
    }
    render_children(list, &layout_box.children, 0, Ghost(layout_box@));
    proof {
        assert(old(list)@.map_values(|c: DisplayCommand| c@) + spec_render_background(
            layout_box@,
        ) + spec_render_borders(layout_box@) + spec_render_text(layout_box@)
            + spec_render_children(layout_box@.children, 0) =~= old(list)@.map_values(
            |c: DisplayCommand| c@,
        ) + spec_render_box(layout_box@));
    }
}

fn render_children(
    list: &mut Vec<DisplayCommand>,
    cs: &Vec<LayoutBox>,
    i: usize,
    Ghost(parent): Ghost<LayoutBoxV>,
)
    requires
        i <= cs.len(),
        parent.children == crate::boxmodel::layoutboxes_view(*cs, 0),
        boxes_clamped(parent),
    ensures
        final(list)@.map_values(|c: DisplayCommand| c@) == old(list)@.map_values(
            |c: DisplayCommand| c@,
        ) + spec_render_children(crate::boxmodel::layoutboxes_view(*cs, 0), i as int),
    decreases *cs, cs@.len() - i,
{
    let ghost bseq = crate::boxmodel::layoutboxes_view(*cs, 0);
    proof {
        crate::boxmodel::lemma_layoutboxes_view(*cs, 0);
    }
    if i >= cs.len() {
        proof {
            assert(list@.map_values(|c: DisplayCommand| c@) =~= list@.map_values(
                |c: DisplayCommand| c@,
            ) + spec_render_children(bseq, i as int));
        }
        return ;
    }
    proof {
        assert(bseq[i as int] == crate::boxmodel::layoutbox_view(cs@[i as int]));
        assert(boxes_clamped(parent.children[i as int]));
    }
    render_layout_box(list, &cs[i]);
    render_children(list, cs, i + 1, Ghost(parent));
}

/// Flatten a laid-out box tree into its ordered list of paint commands,
/// ancestors before descendants.
pub fn build_display_list(layout_root: &LayoutBox) -> (r: Vec<DisplayCommand>)
    requires
        boxes_clamped(layout_root@),
    ensures
        r@.map_values(|c: DisplayCommand| c@) == spec_render_box(layout_root@),
{
    let mut list: Vec<DisplayCommand> = Vec::new();
    proof {
        assert(list@.map_values(|c: DisplayCommand| c@) =~= Seq::<DisplayCommandV>::empty());
    }
    render_layout_box(&mut list, layout_root);
    proof {
        assert(Seq::<DisplayCommandV>::empty() + spec_render_box(layout_root@)
            =~= spec_render_box(layout_root@));
    }
    list
}

/// The paint side of the display-none exclusion: since dropping a
/// hidden-rooted subtree at any depth leaves the built box tree unchanged,
/// the laid-out tree and with it the whole display list are unchanged too —
/// the hidden subtree paints nothing. The premise at the removal site is
/// that of `lemma_display_none_excluded`.
pub proof fn lemma_display_none_no_paint(
    sn: crate::styles::StyleNodeV,
    path: Seq<int>,
    k: int,
    cb: crate::boxmodel::DimensionV,
)
    requires
        crate::boxmodel::drop_site_ok(sn, path, k),
    ensures
        spec_render_box(
            crate::boxmodel::spec_layout(crate::boxmodel::spec_build_box(sn), cb),
        ) == spec_render_box(
            crate::boxmodel::spec_layout(
                crate::boxmodel::spec_build_box(crate::boxmodel::drop_hidden_at(sn, path, k)),
                cb,
            ),
        ),
{
    crate::boxmodel::lemma_display_none_excluded_deep(sn, path, k);
}

} // verus!
