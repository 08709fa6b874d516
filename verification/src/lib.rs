pub mod boxmodel;
pub mod css;
pub mod datatypes;
pub mod display;
pub mod dom;
pub mod lexer;
pub mod strutil;
pub mod styles;
pub mod tokenizer;

use vstd::prelude::*;
use crate::boxmodel::{lemma_build_clamped, lemma_layout_clamped, spec_build_box, spec_layout, spec_viewport, layout_tree};
use crate::css::{parse_css, spec_parse_css, CParsed, CssError};
use crate::datatypes::{Node, NodeV};
use crate::display::{build_display_list, spec_render_box, DisplayCommand};
use crate::dom::{parse_markup, spec_parse_element, MarkupError, Parsed};
use crate::styles::{spec_display, spec_style_tree, style_tree, Display};
use crate::tokenizer::spec_tokenize;

verus! {

/// Number of fixed-point subpixel units in one CSS pixel: lengths are stored
/// as integer thousandths of a pixel.
pub const SUBPX_PER_PX: i64 = 1000;

/// Why a document could not be rendered.
#[derive(Clone, Copy, PartialEq, Eq, Structural, Debug)]
pub enum RenderError {
    /// The markup is structurally broken.
    Markup(MarkupError),
    /// The stylesheet is malformed.
    Css(CssError),
    /// The root element computes to `display: none`, which block layout
    /// has no box for.
    HiddenRoot,
}

/// What the whole pipeline says about its input, stage by stage: the
/// reference parses of the markup and the stylesheet, the styled tree, and
/// the laid-out box tree flattened to paint commands.
pub open spec fn spec_render_page(
    markup: Seq<char>,
    css_text: Seq<char>,
    width: u32,
    height: u32,
) -> Result<Seq<crate::display::DisplayCommandV>, RenderError> {
    match spec_parse_element(spec_tokenize(markup, 0), 0) {
        Parsed::Fail(e) => Err(
            RenderError::Markup(MarkupError { pos: e.pos as usize, kind: e.kind }),
        ),
        Parsed::Done(elem, _) => match spec_parse_css(css_text) {
            CParsed::Fail(e) => Err(
                RenderError::Css(CssError { pos: e.pos as usize, kind: e.kind }),
            ),
            CParsed::Done(rules, _) => {
                let styled = spec_style_tree(NodeV::Element(elem), rules);
                if spec_display(styled.props) == Display::Hidden {
                    Err(RenderError::HiddenRoot)
                } else {
                    Ok(
                        spec_render_box(
                            spec_layout(spec_build_box(styled), spec_viewport(width, height)),
                        ),
                    )
                }
            },
        },
    }
}

/// The whole pipeline: tokenize and build the markup tree, parse the
/// stylesheet, cascade, lay out against the viewport, and flatten the box
/// tree to its ordered paint commands.
pub fn render(markup: &str, css_text: &str, width: u32, height: u32) -> (r: Result<
    Vec<DisplayCommand>,
    RenderError,
>)
    ensures
        match r {
            Ok(cmds) => spec_render_page(markup@, css_text@, width, height) == Ok::<
                _,
                RenderError,
            >(cmds@.map_values(|c: DisplayCommand| c@)),
            Err(e) => spec_render_page(markup@, css_text@, width, height) == Err::<
                Seq<crate::display::DisplayCommandV>,
                _,
            >(e),
        },
{
    let element = match parse_markup(markup) {
        Ok(e) => e,
        Err(e) => {
            return Err(RenderError::Markup(e));
        },
    };
    let stylesheet = match parse_css(String::from_str(css_text)) {
        Ok(s) => s,
        Err(e) => {
            return Err(RenderError::Css(e));
        },
    };
    let node = Node::Element(element);
    let styled = style_tree(&node, &stylesheet);
    if matches!(styled.display(), Display::Hidden) {
        return Err(RenderError::HiddenRoot);
    }
    let ghost styledv = styled@;
    let layout = layout_tree(width, height, styled);
    proof {
        lemma_build_clamped(styledv);
        lemma_layout_clamped(spec_build_box(styledv), spec_viewport(width, height));
    }
    let commands = build_display_list(&layout);
    Ok(commands)
}

} // verus!
