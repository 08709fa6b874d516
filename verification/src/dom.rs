use vstd::prelude::*;
use crate::datatypes::{
    lemma_nodes_view,
    nodes_view,
    Element,
    ElementV,
    Node,
    NodeV,
    StrMap,
    Token,
    TokenV,
};
use crate::strutil::{
    chars_of,
    find_from,
    find_ws_from,
    is_ws,
    lemma_find_from,
    lemma_find_ws_from,
    lemma_skip_ws,
    skip_ws,
    string_is,
    string_of,
    ws_char,
};
use crate::tokenizer::{spec_tokenize, tokenize_all};

verus! {

/// Why tree building failed.
#[derive(Clone, Copy, PartialEq, Eq, Structural, Debug)]
pub enum MarkupErrorKind {
    /// The builder needed an opening tag and found something else.
    ExpectedOpeningTag,
    /// The token stream ended before the element was closed.
    UnterminatedElement,
    /// A closing tag did not match the name of the open element.
    MismatchedTag,
}

/// A structural fault in the markup, at a token position.
#[derive(Clone, Copy, PartialEq, Eq, Structural, Debug)]
pub struct MarkupError {
    pub pos: usize,
    pub kind: MarkupErrorKind,
}

pub struct MarkupErrorV {
    pub pos: int,
    pub kind: MarkupErrorKind,
}

impl View for MarkupError {
    type V = MarkupErrorV;

    open spec fn view(&self) -> MarkupErrorV {
        MarkupErrorV { pos: self.pos as int, kind: self.kind }
    }
}

/// Result of a reference parse from a token position: a value with the
/// position after it, or a fault.
pub enum Parsed<T> {
    Done(T, int),
    Fail(MarkupErrorV),
}

/// One `key=value` word folded into the attribute map: a word without `=`
/// is dropped; otherwise the key is everything before the first `=` and the
/// value everything between the first and the second.
pub open spec fn spec_word_insert(
    acc: Map<Seq<char>, Seq<char>>,
    word: Seq<char>,
) -> Map<Seq<char>, Seq<char>> {
    let f = find_from(word, 0, '=');
    if f >= word.len() {
        acc
    } else {
        let f2 = find_from(word, f + 1, '=');
        acc.insert(word.take(f), word.subrange(f + 1, f2))
    }
}

/// The attribute map read from the raw inner text of an opening tag,
/// starting at `pos`: the whitespace-separated words from there on, folded
/// left to right.
pub open spec fn spec_attrs_from(
    raw: Seq<char>,
    pos: int,
    acc: Map<Seq<char>, Seq<char>>,
) -> Map<Seq<char>, Seq<char>>
    decreases raw.len() - pos,
    when 0 <= pos <= raw.len()
{
    let p = skip_ws(raw, pos);
    if p >= raw.len() {
        acc
    } else {
        proof {
            lemma_skip_ws(raw, pos);
            lemma_find_ws_from(raw, p);
        }
        let e = find_ws_from(raw, p);
        spec_attrs_from(raw, e, spec_word_insert(acc, raw.subrange(p, e)))
    }
}

/// The attributes of an opening tag: the whitespace-delimited words of
/// its raw text after the first one, which is the tag name.
pub open spec fn spec_attrs(raw: Seq<char>) -> Map<Seq<char>, Seq<char>> {
    spec_attrs_from(raw, find_ws_from(raw, skip_ws(raw, 0)), Map::empty())
}

/// The element name read from the raw inner text: its first
/// whitespace-delimited word.
pub open spec fn spec_tag_name(raw: Seq<char>) -> Seq<char> {
    let p = skip_ws(raw, 0);
    raw.subrange(p, find_ws_from(raw, p))
}

/// The reference recursive-descent parse of one element at token position
/// `i`: the token there must be an opening tag; children are read until the
/// matching closing tag.
pub open spec fn spec_parse_element(toks: Seq<TokenV>, i: int) -> Parsed<ElementV>
    decreases toks.len() - i, 0int,
    when 0 <= i <= toks.len()
{
    if i >= toks.len() {
        Parsed::Fail(MarkupErrorV { pos: i, kind: MarkupErrorKind::ExpectedOpeningTag })
    } else {
        match toks[i] {
            TokenV::OpeningTag(raw) => match spec_parse_children(spec_tag_name(raw), toks, i + 1) {
                Parsed::Done(children, end) => Parsed::Done(
                    ElementV { name: spec_tag_name(raw), attributes: spec_attrs(raw), children },
                    end,
                ),
                Parsed::Fail(e) => Parsed::Fail(e),
            },
            _ => Parsed::Fail(MarkupErrorV { pos: i, kind: MarkupErrorKind::ExpectedOpeningTag }),
        }
    }
}

/// The reference parse of the children of an open element named `name`,
/// from token position `i` up to and over its closing tag.
pub open spec fn spec_parse_children(name: Seq<char>, toks: Seq<TokenV>, i: int) -> Parsed<
    Seq<NodeV>,
>
    decreases toks.len() - i, 1int,
    when 0 <= i <= toks.len()
{
    if i >= toks.len() {
        Parsed::Fail(MarkupErrorV { pos: i, kind: MarkupErrorKind::UnterminatedElement })
    } else {
        match toks[i] {
            TokenV::OpeningTag(_) => match spec_parse_element(toks, i) {
                Parsed::Done(child, i2) => if i < i2 <= toks.len() {
                    match spec_parse_children(name, toks, i2) {
                        Parsed::Done(rest, end) => Parsed::Done(
                            seq![NodeV::Element(child)] + rest,
                            end,
                        ),
                        Parsed::Fail(e) => Parsed::Fail(e),
                    }
                } else {
                    Parsed::Fail(MarkupErrorV { pos: i, kind: MarkupErrorKind::UnterminatedElement })
                },
                Parsed::Fail(e) => Parsed::Fail(e),
            },
            TokenV::ClosingTag(n) => if n == name {
                Parsed::Done(Seq::empty(), i + 1)
            } else {
                Parsed::Fail(MarkupErrorV { pos: i, kind: MarkupErrorKind::MismatchedTag })
            },
            TokenV::Data(t) => match spec_parse_children(name, toks, i + 1) {
                Parsed::Done(rest, end) => Parsed::Done(seq![NodeV::Text(t)] + rest, end),
                Parsed::Fail(e) => Parsed::Fail(e),
            },
        }
    }
}

/// Split the raw inner text of an opening tag into the element name and
/// the attribute map.
fn parse_tag_header(raw: &String) -> (r: (String, StrMap<String>))
    ensures
        (r.0)@ == spec_tag_name(raw@),
        (r.1)@ == spec_attrs(raw@),
{
    let cs = chars_of(raw.as_str());
    let ghost s = raw@;

    // The name: the first whitespace-delimited word.
    let mut i: usize = 0;
    while i < cs.len() && ws_char(cs[i])
        invariant
            0 <= i <= cs.len(),
            cs@ == s,
            skip_ws(s, 0) == skip_ws(s, i as int),
        decreases cs.len() - i,
    {
        i = i + 1;
    }
    proof {
        assert(skip_ws(s, 0) == i as int);
    }
    let ghost p0 = i as int;
    let mut name: Vec<char> = Vec::new();
    while i < cs.len() && !ws_char(cs[i])
        invariant
            0 <= p0 <= i as int <= cs@.len(),
            cs@ == s,
            name@ == s.subrange(p0, i as int),
            forall|k: int| p0 <= k < i as int ==> !is_ws(s[k]),
        decreases cs.len() - i,
    {
        name.push(cs[i]);
        proof {
            assert(s.subrange(p0, i + 1 as int) =~= s.subrange(p0, i as int).push(s[i as int]));
        }
        i = i + 1;
    }
    proof {
        lemma_find_ws_from(s, p0);
        assert(find_ws_from(s, p0) == i as int);
        assert(name@ == spec_tag_name(s));
    }
    let name_str = string_of(&name);

    // The attributes: the whitespace-separated `key=value` words after the
    // name.
    let mut attrs: StrMap<String> = StrMap::new();
    let mut cur: usize = i;
    loop
        invariant
            0 <= cur <= cs.len(),
            cs@ == s,
            spec_attrs(s) == spec_attrs_from(s, cur as int, attrs@),
        ensures
            attrs@ == spec_attrs(s),
        decreases cs.len() - cur,
    {
        let ghost curpre = cur as int;
        let ghost attrs_pre = attrs@;
        while cur < cs.len() && ws_char(cs[cur])
            invariant
                0 <= curpre <= cur as int <= cs@.len(),
                cs@ == s,
                skip_ws(s, curpre) == skip_ws(s, cur as int),
            decreases cs.len() - cur,
        {
            cur = cur + 1;
        }
        proof {
            assert(skip_ws(s, curpre) == cur as int);
        }
        if cur >= cs.len() {
            proof {
                assert(spec_attrs_from(s, curpre, attrs_pre) == attrs_pre);
            }
            break ;
        }
        // Scan one word.
        let ghost p = cur as int;
        let mut word: Vec<char> = Vec::new();
        while cur < cs.len() && !ws_char(cs[cur])
            invariant
                0 <= p <= cur as int <= cs@.len(),
                cs@ == s,
                word@ == s.subrange(p, cur as int),
                forall|k: int| p <= k < cur as int ==> !is_ws(s[k]),
            decreases cs.len() - cur,
        {
            word.push(cs[cur]);
            proof {
                assert(s.subrange(p, cur + 1 as int) =~= s.subrange(p, cur as int).push(
                    s[cur as int],
                ));
            }
            cur = cur + 1;
        }
        proof {
            lemma_find_ws_from(s, p);
            assert(find_ws_from(s, p) == cur as int);
        }
        // Fold the word into the attribute map.
        let ghost w = word@;
        let mut j: usize = 0;
        while j < word.len() && word[j] != '='
            invariant
                0 <= j <= word@.len(),
                word@ == w,
                forall|k: int| 0 <= k < j as int ==> w[k] != '=',
            decreases word.len() - j,
        {
            j = j + 1;
        }
        proof {
            lemma_find_from(w, 0, '=');
            assert(find_from(w, 0, '=') == j as int);
        }
        if j < word.len() {
            let mut key: Vec<char> = Vec::new();
            let mut k: usize = 0;
            while k < j
                invariant
                    0 <= k <= j < word@.len(),
                    word@ == w,
                    key@ == w.subrange(0, k as int),
                decreases j - k,
            {
                key.push(word[k]);
                proof {
                    assert(w.subrange(0, k + 1 as int) =~= w.subrange(0, k as int).push(
                        w[k as int],
                    ));
                }
                k = k + 1;
            }
            let mut val: Vec<char> = Vec::new();
            let mut m: usize = j + 1;
            while m < word.len() && word[m] != '='
                invariant
                    j + 1 <= m as int <= word@.len(),
                    word@ == w,
                    j < word@.len(),
                    val@ == w.subrange(j + 1 as int, m as int),
                    forall|k2: int| j + 1 <= k2 < m as int ==> w[k2] != '=',
                decreases word.len() - m,
            {
                val.push(word[m]);
                proof {
                    assert(w.subrange(j + 1 as int, m + 1 as int) =~= w.subrange(
                        j + 1 as int,
                        m as int,
                    ).push(w[m as int]));
                }
                m = m + 1;
            }
            proof {
                lemma_find_from(w, j + 1 as int, '=');
                assert(find_from(w, j + 1 as int, '=') == m as int);
                assert(w.subrange(0, j as int) =~= w.take(j as int));
            }
            let key_str = string_of(&key);
            let val_str = string_of(&val);
            attrs.insert(key_str, val_str);
        }
        proof {
            assert(attrs@ == spec_word_insert(attrs_pre, w));
            assert(spec_attrs_from(s, curpre, attrs_pre) == spec_attrs_from(
                s,
                cur as int,
                attrs@,
            ));
        }
    }
    (name_str, attrs)
}

/// Build one element out of the token stream, starting at token `start`,
/// and report the position after its closing tag; exactly the reference
/// parse `spec_parse_element`.
pub fn parse_element(tokens: &Vec<Token>, start: usize) -> (r: Result<
    (Element, usize),
    MarkupError,
>)
    requires
        start <= tokens.len(),
    ensures
        match r {
            Ok(p) => spec_parse_element(tokens@.map_values(|t: Token| t@), start as int)
                == Parsed::Done(p.0@, p.1 as int) && start < p.1 <= tokens.len(),
            Err(e) => spec_parse_element(tokens@.map_values(|t: Token| t@), start as int)
                == Parsed::<ElementV>::Fail(e@),
        },
    decreases tokens.len() - start,
{
    let ghost tv = tokens@.map_values(|t: Token| t@);
    if start >= tokens.len() {
        return Err(MarkupError { pos: start, kind: MarkupErrorKind::ExpectedOpeningTag });
    }
    proof {
        assert(tv[start as int] == tokens@[start as int]@);
    }
    let header = match &tokens[start] {
        Token::OpeningTag(raw) => parse_tag_header(raw),
        _ => {
            return Err(MarkupError { pos: start, kind: MarkupErrorKind::ExpectedOpeningTag });
        },
    };
    let (name_str, attrs) = header;
    let ghost rawv = tv[start as int]->OpeningTag_0;
    let ghost nm = spec_tag_name(rawv);
    let mut children: Vec<Node> = Vec::new();
    let mut cur: usize = start + 1;
    proof {
        lemma_nodes_view(children, 0);
    }
    loop
        invariant
            start + 1 <= cur as int <= tokens@.len(),
            tv == tokens@.map_values(|t: Token| t@),
            tv.len() == tokens@.len(),
            tv[start as int] == TokenV::OpeningTag(rawv),
            nm == spec_tag_name(rawv),
            name_str@ == nm,
            attrs@ == spec_attrs(rawv),
            match spec_parse_children(nm, tv, cur as int) {
                Parsed::Done(ns, end) => spec_parse_children(nm, tv, start + 1 as int)
                    == Parsed::Done(nodes_view(children, 0) + ns, end),
                Parsed::Fail(e) => spec_parse_children(nm, tv, start + 1 as int) == Parsed::<
                    Seq<NodeV>,
                >::Fail(e),
            },
        decreases tokens@.len() - cur,
    {
        if cur >= tokens.len() {
            return Err(MarkupError { pos: cur, kind: MarkupErrorKind::UnterminatedElement });
        }
        proof {
            assert(tv[cur as int] == tokens@[cur as int]@);
        }
        let ghost prevchildren = children;
        let ghost prevviews = nodes_view(children, 0);
        match &tokens[cur] {
            Token::OpeningTag(_) => {
                match parse_element(tokens, cur) {
                    Ok(p) => {
                        let (child, end) = p;
                        let ghost cview = child@;
                        children.push(Node::Element(child));
                        proof {
                            lemma_nodes_view(children, 0);
                            lemma_nodes_view(prevchildren, 0);
                            assert(nodes_view(children, 0) =~= prevviews.push(
                                NodeV::Element(cview),
                            ));
                            match spec_parse_children(nm, tv, end as int) {
                                Parsed::Done(ns, end2) => {
                                    assert(spec_parse_children(nm, tv, cur as int)
                                        == Parsed::Done(seq![NodeV::Element(cview)] + ns, end2));
                                    assert(nodes_view(children, 0) + ns =~= prevviews + (
                                    seq![NodeV::Element(cview)] + ns));
                                },
                                Parsed::Fail(e) => {
                                    assert(spec_parse_children(nm, tv, cur as int) == Parsed::<
                                        Seq<NodeV>,
                                    >::Fail(e));
                                },
                            }
                        }
                        cur = end;
                    },
                    Err(e) => {
                        return Err(e);
                    },
                }
            },
            Token::ClosingTag(n) => {
                if string_is(n, name_str.as_str()) {
                    proof {
                        assert(spec_parse_children(nm, tv, cur as int) == Parsed::Done(
                            Seq::<NodeV>::empty(),
                            cur + 1 as int,
                        ));
                        assert(nodes_view(children, 0) + Seq::<NodeV>::empty() =~= nodes_view(
                            children,
                            0,
                        ));
                    }
                    let e = Element { name: name_str, attributes: attrs, children };
                    proof {
                        lemma_nodes_view(e.children, 0);
                        assert(e@.children =~= nodes_view(e.children, 0));
                    }
                    return Ok((e, cur + 1));
                } else {
                    return Err(MarkupError { pos: cur, kind: MarkupErrorKind::MismatchedTag });
                }
            },
            Token::Data(t) => {
                let tc = t.clone();
                let ghost tview = tc@;
                children.push(Node::Text(tc));
                proof {
                    lemma_nodes_view(children, 0);
                    lemma_nodes_view(prevchildren, 0);
                    assert(nodes_view(children, 0) =~= prevviews.push(NodeV::Text(tview)));
                    match spec_parse_children(nm, tv, cur + 1 as int) {
                        Parsed::Done(ns, end2) => {
                            assert(spec_parse_children(nm, tv, cur as int) == Parsed::Done(
                                seq![NodeV::Text(tview)] + ns,
                                end2,
                            ));
                            assert(nodes_view(children, 0) + ns =~= prevviews + (
                            seq![NodeV::Text(tview)] + ns));
                        },
                        Parsed::Fail(e) => {
                            assert(spec_parse_children(nm, tv, cur as int) == Parsed::<
                                Seq<NodeV>,
                            >::Fail(e));
                        },
                    }
                }
                cur = cur + 1;
            },
        }
    }
}

/// Tokenize a markup buffer and build its element tree: together with
/// `spec_tokenize` and `spec_parse_element` this states that tokenizing and
/// tree-building agree with the reference recursive-descent parse of the
/// input, nesting and text content included.
pub fn parse_markup(input: &str) -> (r: Result<Element, MarkupError>)
    ensures
        match r {
            Ok(e) => spec_parse_element(spec_tokenize(input@, 0), 0) matches Parsed::Done(ev, _)
                && spec_parse_element(spec_tokenize(input@, 0), 0)->Done_0 == e@,
            Err(e) => spec_parse_element(spec_tokenize(input@, 0), 0) == Parsed::<
                ElementV,
            >::Fail(e@),
        },
{
    let tokens = tokenize_all(input);
    match parse_element(&tokens, 0) {
        Ok(p) => Ok(p.0),
        Err(e) => Err(e),
    }
}

} // verus!
