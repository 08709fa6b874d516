use positron::css::{parse_css, Selector, Unit, Value, CSS};
use positron::datatypes::{Element, Node, StrMap};
use positron::dom::parse_markup;
use positron::lexer::HTML;
use positron::tokenizer::Tokenizer;

#[test]
fn identifier_skips_interior_whitespace() {
    // The identifier scan skips whitespace between identifier characters,
    // so a split property name is read as one word.
    let sheet = parse_css("p { mar gin: 10px; }".to_string()).unwrap();
    assert_eq!(sheet.rules[0].declaration[0].name, "margin");
}

#[test]
fn selector_space_joins_parts() {
    // There are no descendant combinators: `div .c1` is one simple
    // selector with tag `div` and class `c1`.
    let sheet = parse_css("div .c1 { display: block; }".to_string()).unwrap();
    assert_eq!(sheet.rules[0].selector.len(), 1);
    match &sheet.rules[0].selector[0] {
        Selector::Simple(s) => {
            assert!(matches!(&s.tag, Some(t) if t == "div"));
            assert_eq!(s.class, vec!["c1".to_string()]);
        },
    }
}

#[test]
fn universal_selector_has_zero_specificity() {
    let sheet = parse_css("* { display: block; }".to_string()).unwrap();
    assert_eq!(sheet.rules[0].selector[0].specificity(), (0, 0, 0));
}

#[test]
fn trailing_dot_number() {
    let sheet = parse_css("p { margin: 12.px; }".to_string()).unwrap();
    assert!(matches!(sheet.rules[0].declaration[0].value, Value::Length(12_000, Unit::Px)));
}

#[test]
fn lowercase_hex_color() {
    let sheet = parse_css("p { color: #ff00aa; }".to_string()).unwrap();
    match &sheet.rules[0].declaration[0].value {
        Value::Color(c) => assert_eq!((c.r, c.g, c.b, c.a), (255, 0, 170, 255)),
        _ => panic!("expected a colour"),
    }
}

#[test]
fn huge_length_saturates() {
    // Parsed lengths are saturated at the library's pixel bound instead of
    // growing without limit.
    let sheet = parse_css("p { margin: 99999999999999999999999px; }".to_string()).unwrap();
    assert!(matches!(
        sheet.rules[0].declaration[0].value,
        Value::Length(positron::css::PX_LIMIT, Unit::Px)
    ));
}

#[test]
fn parse_simple_selector_public_api() {
    // The identifier scan runs across whitespace, so `.c2 rest` reads as
    // one class `c2rest`; the scan stops only at a non-identifier
    // character or the end of the input.
    let mut p = CSS::new("#id.c1.c2 rest".to_string());
    let sel = p.parse_simple_selector();
    assert!(matches!(&sel.id, Some(t) if t == "id"));
    assert_eq!(sel.class, vec!["c1".to_string(), "c2rest".to_string()]);
    assert!(sel.tag.is_none());
}

#[test]
fn tokenizer_advance_skips_one_char() {
    let mut tk = Tokenizer::new("ab<c></c>");
    tk.advance();
    assert!(matches!(tk.next_token(), Some(positron::datatypes::Token::Data(s)) if s == "b"));
}

#[test]
fn element_new_and_add_child() {
    let mut e = Element::new("div".to_string());
    assert_eq!(e.name, "div");
    assert!(e.children.is_empty());
    e.add_child(Node::Text("hi".to_string()));
    assert_eq!(e.children.len(), 1);
}

#[test]
fn strmap_later_insert_shadows() {
    let mut m: StrMap<String> = StrMap::new();
    m.insert("k".to_string(), "1".to_string());
    m.insert("k".to_string(), "2".to_string());
    assert!(matches!(m.get("k"), Some(v) if v == "2"));
    assert!(m.get("absent").is_none());
}

#[test]
fn html_skeleton_is_empty() {
    let h = HTML::new("page".to_string(), "<html></html>".to_string());
    assert_eq!(h.name, "page");
    assert!(h.head.is_none());
    assert!(h.body.is_none());
}

#[test]
fn markup_with_unicode_text() {
    let e = parse_markup("<p>héllo wörld</p>").unwrap();
    assert!(matches!(&e.children[0], Node::Text(t) if t == "héllo wörld"));
}
