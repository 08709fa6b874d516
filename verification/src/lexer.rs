#![allow(non_snake_case)]

use vstd::prelude::*;
use crate::strutil::{chars_of, string_of};

verus! {

/// A coarse document skeleton.
pub struct HTML {
    pub name: String,
    pub head: Option<Head>,
    pub body: Option<Body>,
}

pub struct Head {
    pub child: Vec<HeadTag>,
}

pub struct Body {
    pub child: Vec<BodyTag>,
}

pub enum Token {
    OpeningTag(String),
    ClosingTag(String),
    Data(String),
}

pub enum HeadTag {
    Title,
    Meta,
}

pub enum BodyTag {
    H1,
    H2,
    H3,
    H4,
    H5,
    H6,
    P,
}

pub open spec fn is_lexer_letter(c: char) -> bool {
    ||| ('a' as u32) <= (c as u32) <= ('z' as u32)
    ||| ('A' as u32) <= (c as u32) <= ('Z' as u32)
}

pub open spec fn is_lexer_ws(c: char) -> bool {
    c == '\n' || c == ' ' || c == '\r' || c == '\t'
}

/// The coarse tag scan, one character at a time: `<` flushes the piece
/// under construction and starts a new one, `>` closes and emits a piece,
/// whitespace is dropped, and everything else is accumulated; an
/// unterminated trailing piece is discarded.
pub open spec fn spec_parse_tags(
    s: Seq<char>,
    i: int,
    tags: Seq<Seq<char>>,
    cur: Seq<char>,
) -> Seq<Seq<char>>
    decreases s.len() - i,
    when 0 <= i <= s.len()
{
    if i >= s.len() {
        tags
    } else {
        let c = s[i];
        if c == '<' {
            let tags2 = if cur.len() > 0 {
                tags.push(cur)
            } else {
                tags
            };
            spec_parse_tags(s, i + 1, tags2, seq!['<'])
        } else if c == '>' {
            spec_parse_tags(s, i + 1, tags.push(cur.push('>')), Seq::empty())
        } else if is_lexer_ws(c) {
            spec_parse_tags(s, i + 1, tags, cur)
        } else {
            spec_parse_tags(s, i + 1, tags, cur.push(c))
        }
    }
}

/// Split markup text into its coarse tag pieces.
pub fn parseTags(code: String) -> (r: Vec<String>)
    ensures
        r@.map_values(|t: String| t@) == spec_parse_tags(
            code@,
            0,
            Seq::empty(),
            Seq::empty(),
        ),
{
    let cs = chars_of(code.as_str());
    let mut tags: Vec<String> = Vec::new();
    let mut cur: Vec<char> = Vec::new();
    let mut i: usize = 0;
    proof {
        assert(tags@.map_values(|t: String| t@) =~= Seq::<Seq<char>>::empty());
        assert(cur@ =~= Seq::<char>::empty());
    }
    while i < cs.len()
        invariant
            0 <= i <= cs.len(),
            cs@ == code@,
            spec_parse_tags(code@, 0, Seq::empty(), Seq::empty()) == spec_parse_tags(
                code@,
                i as int,
                tags@.map_values(|t: String| t@),
                cur@,
            ),
        decreases cs.len() - i,
    {
        let ghost tagsv = tags@.map_values(|t: String| t@);
        let c = cs[i];
        let u = c as u32;
        if c == '<' {
            if cur.len() > 0 {
                let piece = string_of(&cur);
                tags.push(piece);
                proof {
                    assert(tags@.map_values(|t: String| t@) =~= tagsv.push(cur@));
                }
                cur = Vec::new();
            }
            cur = Vec::new();
            cur.push('<');
            proof {
                assert(cur@ =~= seq!['<']);
            }
        } else if c == '>' {
            cur.push('>');
            let piece = string_of(&cur);
            tags.push(piece);
            proof {
                assert(tags@.map_values(|t: String| t@) =~= tagsv.push(cur@));
            }
            cur = Vec::new();
            proof {
                assert(cur@ =~= Seq::<char>::empty());
            }
        } else if c == '\n' || c == ' ' || c == '\r' || c == '\t' {
        } else {
            cur.push(c);
        }
        i = i + 1;
    }
    tags
}

impl HTML {
    /// An empty skeleton under the given name; the tag scan of the text is
    /// run and discarded, as the skeleton carries no structure yet.
    pub fn new(name: String, html: String) -> (r: HTML)
        ensures
            r.name@ == name@,
            r.head is None,
            r.body is None,
    {
        let _tags = parseTags(html);
        HTML { name, head: None, body: None }
    }
}

} // verus!
