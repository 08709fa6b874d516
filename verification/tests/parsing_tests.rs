use positron::datatypes::{Node, Token};
use positron::dom::{parse_element, parse_markup, MarkupErrorKind};
use positron::lexer::parseTags;
use positron::tokenizer::{tokenize_all, Tokenizer};

#[test]
fn tokenize_simple() {
    let mut tk = Tokenizer::new("<p>hi</p>");
    assert!(matches!(tk.next_token(), Some(Token::OpeningTag(s)) if s == "p"));
    assert!(matches!(tk.next_token(), Some(Token::Data(s)) if s == "hi"));
    assert!(matches!(tk.next_token(), Some(Token::ClosingTag(s)) if s == "p"));
    assert!(tk.next_token().is_none());
}

#[test]
fn tokenize_keeps_attribute_text() {
    let mut tk = Tokenizer::new("<head prop=test prop2=val2>");
    assert!(matches!(tk.next_token(), Some(Token::OpeningTag(s)) if s == "head prop=test prop2=val2"));
    assert!(tk.next_token().is_none());
}

#[test]
fn tokenize_skips_leading_whitespace() {
    let mut tk = Tokenizer::new("  \n <b>a b  c</b>");
    assert!(matches!(tk.next_token(), Some(Token::OpeningTag(s)) if s == "b"));
    // Interior whitespace of character data is preserved.
    assert!(matches!(tk.next_token(), Some(Token::Data(s)) if s == "a b  c"));
    assert!(matches!(tk.next_token(), Some(Token::ClosingTag(s)) if s == "b"));
    assert!(tk.next_token().is_none());
}

#[test]
fn tokenize_lone_angle_gives_end() {
    let mut tk = Tokenizer::new("<");
    assert!(tk.next_token().is_none());
}

#[test]
fn tokenize_all_counts() {
    let tokens = tokenize_all("<div><p>one</p><p>two</p></div>");
    assert_eq!(tokens.len(), 8);
}

#[test]
fn parse_markup_nesting() {
    let e = parse_markup("<div><p class=c1>hi</p></div>").unwrap();
    assert_eq!(e.name, "div");
    assert_eq!(e.children.len(), 1);
    match &e.children[0] {
        Node::Element(p) => {
            assert_eq!(p.name, "p");
            assert!(matches!(p.attributes.get("class"), Some(v) if v == "c1"));
            assert_eq!(p.children.len(), 1);
            assert!(matches!(&p.children[0], Node::Text(t) if t == "hi"));
        },
        Node::Text(_) => panic!("expected an element child"),
    }
}

#[test]
fn parse_markup_mismatched_tag() {
    let e = parse_markup("<div>text</p>").unwrap_err();
    assert_eq!(e.kind, MarkupErrorKind::MismatchedTag);
    assert_eq!(e.pos, 2);
}

#[test]
fn parse_markup_unterminated() {
    let e = parse_markup("<div><p>x</p>").unwrap_err();
    assert_eq!(e.kind, MarkupErrorKind::UnterminatedElement);
}

#[test]
fn parse_markup_expects_opening_tag() {
    let e = parse_markup("just text").unwrap_err();
    assert_eq!(e.kind, MarkupErrorKind::ExpectedOpeningTag);
    assert_eq!(e.pos, 0);
}

#[test]
fn parse_element_reports_end_position() {
    let tokens = tokenize_all("<a></a><b></b>");
    let (e, rest) = parse_element(&tokens, 0).unwrap();
    assert_eq!(e.name, "a");
    assert_eq!(rest, 2);
    let (e2, rest2) = parse_element(&tokens, rest).unwrap();
    assert_eq!(e2.name, "b");
    assert_eq!(rest2, 4);
}

#[test]
fn attributes_without_equals_are_dropped() {
    let e = parse_markup("<input checked value=3></input>").unwrap();
    assert_eq!(e.name, "input");
    assert!(e.attributes.get("checked").is_none());
    assert!(matches!(e.attributes.get("value"), Some(v) if v == "3"));
}

#[test]
fn attribute_name_with_equals() {
    // The whole first word is the name, even with an `=` in it; only the
    // words after the name are scanned as `key=value` pairs.
    let e = parse_markup("<a=b></a=b>").unwrap();
    assert_eq!(e.name, "a=b");
    assert!(e.attributes.get("a").is_none());
}

#[test]
fn attributes_split_on_any_whitespace() {
    // The name ends at any whitespace, and attribute words may be
    // separated by tabs or newlines.
    let e = parse_markup("<div\tclass=c1\nid=z></div>").unwrap();
    assert_eq!(e.name, "div");
    assert!(matches!(e.attributes.get("class"), Some(v) if v == "c1"));
    assert!(matches!(e.attributes.get("id"), Some(v) if v == "z"));
}

#[test]
fn attribute_value_stops_at_second_equals() {
    let e = parse_markup("<x a=b=c></x>").unwrap();
    assert!(matches!(e.attributes.get("a"), Some(v) if v == "b"));
}

#[test]
fn later_attribute_wins() {
    let e = parse_markup("<x k=1 k=2></x>").unwrap();
    assert!(matches!(e.attributes.get("k"), Some(v) if v == "2"));
}

#[test]
fn element_classes_split_on_space() {
    let e = parse_markup("<p class=c1 id=me></p>").unwrap();
    let classes = e.classes();
    assert_eq!(classes.len(), 1);
    assert_eq!(classes[0], "c1");
    assert!(matches!(e.id(), Some(v) if v == "me"));
}

#[test]
fn element_classes_many() {
    let e = parse_markup("<p class=aa></p>").unwrap();
    assert_eq!(e.classes(), vec!["aa".to_string()]);
    let e2 = parse_markup("<p></p>").unwrap();
    assert!(e2.classes().is_empty());
}

#[test]
fn lexer_parse_tags() {
    let tags = parseTags("<html> <body>hi</body>".to_string());
    assert_eq!(tags, vec!["<html>", "<body>", "hi", "</body>"]);
}

#[test]
fn lexer_parse_tags_drops_unterminated() {
    let tags = parseTags("<a>rest".to_string());
    assert_eq!(tags, vec!["<a>"]);
}
