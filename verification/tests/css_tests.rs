use positron::css::{parse_css, Color, CssErrorKind, Selector, SimpleSelector, Unit, Value};
use positron::dom::parse_markup;
use positron::styles::{specified_values, style_tree, Display};
use positron::datatypes::Node;

#[test]
fn parse_css_one_rule() {
    let sheet = parse_css("p { margin: 10px; }".to_string()).unwrap();
    assert_eq!(sheet.rules.len(), 1);
    let rule = &sheet.rules[0];
    assert_eq!(rule.selector.len(), 1);
    match &rule.selector[0] {
        Selector::Simple(s) => {
            assert!(matches!(&s.tag, Some(t) if t == "p"));
            assert!(s.id.is_none());
            assert!(s.class.is_empty());
        },
    }
    assert_eq!(rule.declaration.len(), 1);
    assert_eq!(rule.declaration[0].name, "margin");
    assert!(matches!(rule.declaration[0].value, Value::Length(10_000, Unit::Px)));
}

#[test]
fn parse_css_selector_parts() {
    let sheet = parse_css(".c1#main { display: block; }".to_string()).unwrap();
    match &sheet.rules[0].selector[0] {
        Selector::Simple(s) => {
            assert!(s.tag.is_none());
            assert!(matches!(&s.id, Some(t) if t == "main"));
            assert_eq!(s.class, vec!["c1".to_string()]);
        },
    }
}

#[test]
fn parse_css_selectors_sorted_by_specificity() {
    let sheet = parse_css("h1, .title, #page { display: block; }".to_string()).unwrap();
    let sels = &sheet.rules[0].selector;
    assert_eq!(sels.len(), 3);
    // Descending: id, then class, then tag.
    assert_eq!(sels[0].specificity(), (1, 0, 0));
    assert_eq!(sels[1].specificity(), (0, 1, 0));
    assert_eq!(sels[2].specificity(), (0, 0, 1));
}

#[test]
fn parse_css_color() {
    let sheet = parse_css("p { color: #FF77FF; }".to_string()).unwrap();
    assert!(matches!(
        sheet.rules[0].declaration[0].value,
        Value::Color(Color { r: 255, g: 119, b: 255, a: 255 })
    ));
}

#[test]
fn parse_css_keyword() {
    let sheet = parse_css("p { display: block; }".to_string()).unwrap();
    assert!(matches!(&sheet.rules[0].declaration[0].value, Value::Keyword(k) if k == "block"));
}

#[test]
fn parse_css_fractional_length() {
    let sheet = parse_css("p { margin: 10.5px; }".to_string()).unwrap();
    assert!(matches!(sheet.rules[0].declaration[0].value, Value::Length(10_500, Unit::Px)));
}

#[test]
fn parse_css_fraction_truncated_to_thousandths() {
    let sheet = parse_css("p { margin: 0.0005px; }".to_string()).unwrap();
    assert!(matches!(sheet.rules[0].declaration[0].value, Value::Length(0, Unit::Px)));
}

#[test]
fn parse_css_unit_any_case() {
    let sheet = parse_css("p { margin: 2PX; }".to_string()).unwrap();
    assert!(matches!(sheet.rules[0].declaration[0].value, Value::Length(2_000, Unit::Px)));
}

#[test]
fn parse_css_unknown_unit() {
    let e = parse_css("p { margin: 10em; }".to_string()).unwrap_err();
    assert_eq!(e.kind, CssErrorKind::UnknownUnit);
}

#[test]
fn parse_css_malformed_number() {
    let e = parse_css("p { margin: 1.2.3px; }".to_string()).unwrap_err();
    assert_eq!(e.kind, CssErrorKind::MalformedNumber);
}

#[test]
fn parse_css_short_color() {
    let e = parse_css("p { color: #12; }".to_string()).unwrap_err();
    assert_eq!(e.kind, CssErrorKind::MalformedColor);
}

#[test]
fn parse_css_bad_hex_digits() {
    let e = parse_css("p { color: #GGGGGG; }".to_string()).unwrap_err();
    assert_eq!(e.kind, CssErrorKind::MalformedColor);
}

#[test]
fn parse_css_missing_colon() {
    let e = parse_css("p { margin 10px; }".to_string()).unwrap_err();
    assert_eq!(e.kind, CssErrorKind::MissingDeclarationPunctuation);
}

#[test]
fn parse_css_missing_semicolon() {
    let e = parse_css("p { margin: 10px }".to_string()).unwrap_err();
    assert_eq!(e.kind, CssErrorKind::MissingDeclarationPunctuation);
}

#[test]
fn parse_css_unclosed_block() {
    // A missing `}` is missing punctuation, also when the input just ends.
    let e = parse_css("p { margin: 10px; ".to_string()).unwrap_err();
    assert_eq!(e.kind, CssErrorKind::MissingDeclarationPunctuation);
}

#[test]
fn parse_css_input_ends_at_colon() {
    let e = parse_css("p { margin".to_string()).unwrap_err();
    assert_eq!(e.kind, CssErrorKind::MissingDeclarationPunctuation);
}

#[test]
fn parse_css_input_ends_at_semicolon() {
    let e = parse_css("p { margin: 10px".to_string()).unwrap_err();
    assert_eq!(e.kind, CssErrorKind::MissingDeclarationPunctuation);
}

#[test]
fn parse_css_bad_selector_char() {
    let e = parse_css("p & { display: block; }".to_string()).unwrap_err();
    assert_eq!(e.kind, CssErrorKind::UnexpectedSelectorChar);
}

#[test]
fn parse_css_selector_at_end() {
    let e = parse_css("p".to_string()).unwrap_err();
    assert_eq!(e.kind, CssErrorKind::UnexpectedEndOfInput);
}

#[test]
fn parse_css_empty_sheet() {
    let sheet = parse_css("   \n ".to_string()).unwrap();
    assert!(sheet.rules.is_empty());
}

#[test]
fn specificity_counts() {
    let sel = Selector::Simple(SimpleSelector {
        tag: Some("p".to_string()),
        id: Some("x".to_string()),
        class: vec!["a".to_string(), "b".to_string()],
    });
    assert_eq!(sel.specificity(), (1, 2, 1));
}

#[test]
fn cascade_highest_specificity_wins() {
    let sheet = parse_css("* { color: #111111; } .c1 { color: #222222; }".to_string()).unwrap();
    let e = parse_markup("<p class=c1></p>").unwrap();
    let props = specified_values(&e, &sheet);
    match props.get("color") {
        Some(Value::Color(c)) => assert_eq!(c.r, 0x22),
        _ => panic!("expected the class rule's colour"),
    }
}

#[test]
fn cascade_later_rule_wins_among_equals() {
    let sheet = parse_css("p { color: #111111; } p { color: #222222; }".to_string()).unwrap();
    let e = parse_markup("<p></p>").unwrap();
    let props = specified_values(&e, &sheet);
    match props.get("color") {
        Some(Value::Color(c)) => assert_eq!(c.r, 0x22),
        _ => panic!("expected the later rule's colour"),
    }
}

#[test]
fn cascade_last_declaration_in_rule_wins() {
    let sheet = parse_css("p { color: #111111; color: #330000; }".to_string()).unwrap();
    let e = parse_markup("<p></p>").unwrap();
    let props = specified_values(&e, &sheet);
    match props.get("color") {
        Some(Value::Color(c)) => assert_eq!(c.r, 0x33),
        _ => panic!("expected the last declaration"),
    }
}

#[test]
fn cascade_nonmatching_rule_ignored() {
    let sheet = parse_css("div { color: #111111; }".to_string()).unwrap();
    let e = parse_markup("<p></p>").unwrap();
    let props = specified_values(&e, &sheet);
    assert!(props.get("color").is_none());
}

#[test]
fn styled_tree_shape_and_display() {
    let sheet = parse_css("* { display: block; } span { display: none; }".to_string()).unwrap();
    let e = parse_markup("<div><span>x</span>text</div>").unwrap();
    let node = Node::Element(e);
    let styled = style_tree(&node, &sheet);
    assert_eq!(styled.display(), Display::Block);
    assert_eq!(styled.children.len(), 2);
    assert_eq!(styled.children[0].display(), Display::Hidden);
    // Text nodes carry an empty mapping and default to inline.
    assert_eq!(styled.children[1].display(), Display::Inline);
    assert!(matches!(&styled.children[1].text, Some(t) if t == "text"));
}
