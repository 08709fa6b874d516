use positron::boxmodel::{build_layout_tree, layout_tree, BoxType};
use positron::css::parse_css;
use positron::datatypes::Node;
use positron::display::{build_display_list, DisplayCommand};
use positron::dom::parse_markup;
use positron::render;
use positron::styles::style_tree;
use positron::RenderError;

fn styled(markup: &str, css: &str) -> positron::styles::StyleNode {
    let e = parse_markup(markup).unwrap();
    let sheet = parse_css(css.to_string()).unwrap();
    let node = Node::Element(e);
    style_tree(&node, &sheet)
}

#[test]
fn auto_width_fills_containing_block() {
    // A `p` with `margin: 10px` and no explicit width in an 800px-wide
    // containing block resolves to content width 780px with both margins
    // kept at 10px.
    let sn = styled("<p>hi</p>", "p { display: block; margin: 10px; }");
    let root = layout_tree(800, 600, sn);
    let d = &root.dimensions;
    assert_eq!(d.content.width, 780_000);
    assert_eq!(d.margin.left, 10_000);
    assert_eq!(d.margin.right, 10_000);
    assert_eq!(d.content.x, 10_000);
}

#[test]
fn fixed_width_auto_margins_split_evenly() {
    let sn = styled(
        "<p>hi</p>",
        "p { display: block; width: 100px; margin-left: auto; margin-right: auto; }",
    );
    let root = layout_tree(800, 600, sn);
    let d = &root.dimensions;
    assert_eq!(d.content.width, 100_000);
    assert_eq!(d.margin.left, 350_000);
    assert_eq!(d.margin.right, 350_000);
}

#[test]
fn over_constrained_margin_right_absorbs() {
    let sn = styled(
        "<p>hi</p>",
        "p { display: block; width: 900px; margin: 10px; }",
    );
    let root = layout_tree(800, 600, sn);
    let d = &root.dimensions;
    // The seven horizontal quantities still add up to the containing width.
    assert_eq!(d.content.width, 900_000);
    assert_eq!(d.margin.left, 10_000);
    assert_eq!(d.margin.right, 800_000 - 900_000 - 10_000);
}

#[test]
fn heights_accumulate_over_children() {
    let sn = styled(
        "<div><p>a</p><p>b</p></div>",
        "div { display: block; } p { display: block; height: 20px; margin: 5px; }",
    );
    let root = layout_tree(800, 600, sn);
    assert_eq!(root.children.len(), 2);
    // Each child's margin box is 20 + 5 + 5 = 30px tall.
    assert_eq!(root.dimensions.content.height, 60_000);
    assert_eq!(root.children[0].dimensions.content.y, 5_000);
    assert_eq!(root.children[1].dimensions.content.y, 35_000);
}

#[test]
fn explicit_height_overrides_children_sum() {
    let sn = styled(
        "<div><p>a</p></div>",
        "div { display: block; height: 44px; } p { display: block; height: 20px; }",
    );
    let root = layout_tree(800, 600, sn);
    assert_eq!(root.dimensions.content.height, 44_000);
}

#[test]
fn padding_and_border_shift_content() {
    let sn = styled(
        "<p>x</p>",
        "p { display: block; padding: 20px; border-width: 10px; margin: 10px; }",
    );
    let root = layout_tree(800, 600, sn);
    let d = &root.dimensions;
    assert_eq!(d.content.x, 10_000 + 10_000 + 20_000);
    assert_eq!(d.content.y, 10_000 + 10_000 + 20_000);
    assert_eq!(d.content.width, 800_000 - 2 * (10_000 + 10_000 + 20_000));
}

#[test]
fn consecutive_inline_children_share_anonymous_block() {
    let sn = styled(
        "<div><a>x</a><b>y</b></div>",
        "div { display: block; }",
    );
    let root = build_layout_tree(sn);
    assert_eq!(root.children.len(), 1);
    assert!(matches!(root.children[0].box_type, BoxType::AnonymousBlock));
    assert_eq!(root.children[0].children.len(), 2);
    assert!(matches!(root.children[0].children[0].box_type, BoxType::InlineNode(_)));
}

#[test]
fn block_child_flushes_anonymous_run() {
    let sn = styled(
        "<div><a>x</a><p>y</p><b>z</b></div>",
        "div { display: block; } p { display: block; }",
    );
    let root = build_layout_tree(sn);
    // An anonymous block for the first run, the block child, then another
    // anonymous block for the second run.
    assert_eq!(root.children.len(), 3);
    assert!(matches!(root.children[0].box_type, BoxType::AnonymousBlock));
    assert!(matches!(root.children[1].box_type, BoxType::BlockNode(_)));
    assert!(matches!(root.children[2].box_type, BoxType::AnonymousBlock));
}

#[test]
fn display_none_subtree_contributes_nothing() {
    // The hidden `span` vanishes with its whole subtree, block descendants
    // included: only the visible `p` paints.
    let cmds = render(
        "<div><span><p>deep</p></span><p>vis</p></div>",
        "div { display: block; } span { display: none; } p { display: block; background: #010203; }",
        800,
        600,
    )
    .unwrap();
    assert_eq!(cmds.len(), 1);
    match &cmds[0] {
        DisplayCommand::SolidColor(c, _) => {
            assert_eq!((c.r, c.g, c.b), (1, 2, 3));
        },
        _ => panic!("expected one background"),
    }
}

#[test]
fn display_none_excluded_at_depth() {
    // The hidden node sits two levels down; its block descendant still
    // contributes nothing.
    let cmds = render(
        "<div><section><span><p>deep</p></span><p>vis</p></section></div>",
        "div { display: block; } section { display: block; } span { display: none; } p { display: block; background: #040506; }",
        800,
        600,
    )
    .unwrap();
    assert_eq!(cmds.len(), 1);
    match &cmds[0] {
        DisplayCommand::SolidColor(c, _) => {
            assert_eq!((c.r, c.g, c.b), (4, 5, 6));
        },
        _ => panic!("expected one background"),
    }
}

#[test]
fn example_box_tree_and_display_list() {
    // The worked example: one Block box for `div` holding one Block box
    // for `p`; the display list is exactly the red background of `p`'s
    // border box, then the white text over the same box.
    let markup = "<div><p class=c1>hi</p></div>";
    let css = "* { display: block; } .c1 { background: #FF0000; color: #FFFFFF; }";
    let sn = styled(markup, css);
    let root = layout_tree(800, 600, sn);
    assert!(matches!(root.box_type, BoxType::BlockNode(_)));
    assert_eq!(root.children.len(), 1);
    assert!(matches!(root.children[0].box_type, BoxType::BlockNode(_)));
    // The text child sits in an anonymous block below the `p` box.
    assert_eq!(root.children[0].children.len(), 1);
    assert!(matches!(root.children[0].children[0].box_type, BoxType::AnonymousBlock));

    let cmds = build_display_list(&root);
    assert_eq!(cmds.len(), 2);
    match (&cmds[0], &cmds[1]) {
        (DisplayCommand::SolidColor(bg, r1), DisplayCommand::Text(fg, r2, t)) => {
            assert_eq!((bg.r, bg.g, bg.b, bg.a), (255, 0, 0, 255));
            assert_eq!((fg.r, fg.g, fg.b, fg.a), (255, 255, 255, 255));
            assert_eq!(t, "hi");
            assert_eq!((r1.x, r1.y, r1.width, r1.height), (r2.x, r2.y, r2.width, r2.height));
            assert_eq!(r1.x, 0);
            assert_eq!(r1.width, 800_000);
        },
        _ => panic!("expected background then text"),
    }
}

#[test]
fn borders_emitted_when_border_color_set() {
    let cmds = render(
        "<p>x</p>",
        "p { display: block; border-width: 10px; border-color: #0000FF; }",
        800,
        600,
    )
    .unwrap();
    // Four border edges, no background, no text colour.
    assert_eq!(cmds.len(), 4);
    match &cmds[0] {
        DisplayCommand::SolidColor(c, r) => {
            assert_eq!(c.b, 255);
            // The left border strip of the border box.
            assert_eq!(r.x, 0);
            assert_eq!(r.width, 10_000);
        },
        _ => panic!("expected border rectangles"),
    }
}

#[test]
fn render_reports_markup_errors() {
    let e = render("<div>", "p { display: block; }", 800, 600).unwrap_err();
    assert!(matches!(e, RenderError::Markup(_)));
}

#[test]
fn render_reports_css_errors() {
    let e = render("<p>x</p>", "p { margin: 10vw; }", 800, 600).unwrap_err();
    assert!(matches!(e, RenderError::Css(_)));
}

#[test]
fn render_rejects_hidden_root() {
    let e = render("<p>x</p>", "p { display: none; }", 800, 600).unwrap_err();
    assert!(matches!(e, RenderError::HiddenRoot));
}

#[test]
fn render_demo_document() {
    let markup = "
<html>
    <head prop=test prop2=val2>
        <title>TitleData</title>
    </head>
    <body>
        <p>This is some text</p>
        <p class=c1>one</p>
        <h1> Helloooo </h1>
    </body>
</html>
";
    let css = "
        * { display: block; background: #000000; }
        head { display: none; }
        body { margin: 10px; background: #FFFFFF; }
        p { margin: 10px; padding: 20px; color: #FFFFFF; border-width: 10px; border-color: #FF77FF; }
        .c1 { padding: 0px; background: #FF0000; }
        h1 { padding: 50px; color: #000000; background: #FF7700; margin: 20px; }
        ";
    let cmds = render(markup, css, 800, 600).unwrap();
    assert!(cmds.len() > 8);
}
