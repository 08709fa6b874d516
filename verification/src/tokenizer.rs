use vstd::prelude::*;
use crate::datatypes::{Token, TokenV};
use crate::strutil::{
    chars_of,
    find_from,
    lemma_find_from,
    lemma_skip_ws,
    skip_ws,
    string_of,
    ws_char,
};

verus! {

/// What one tokenizer step yields on the character sequence `s` at `pos`:
/// the token read and the position after it, or nothing at the end of the
/// stream (or on a lone `<` with nothing behind it).
pub open spec fn spec_next_token(s: Seq<char>, pos: int) -> Option<(TokenV, int)> {
    let p = skip_ws(s, pos);
    if p >= s.len() {
        None
    } else if s[p] == '<' {
        if p + 1 >= s.len() {
            None
        } else if s[p + 1] == '/' {
            let e = find_from(s, p + 2, '>');
            Some(
                (
                    TokenV::ClosingTag(s.subrange(p + 2, e)),
                    if e < s.len() {
                        e + 1
                    } else {
                        e
                    },
                ),
            )
        } else {
            let e = find_from(s, p + 1, '>');
            Some(
                (
                    TokenV::OpeningTag(s.subrange(p + 1, e)),
                    if e < s.len() {
                        e + 1
                    } else {
                        e
                    },
                ),
            )
        }
    } else {
        let e = find_from(s, p, '<');
        Some((TokenV::Data(s.subrange(p, e)), e))
    }
}

/// A step always moves forward and stays inside the input.
pub proof fn lemma_spec_next_token(s: Seq<char>, pos: int)
    requires
        0 <= pos <= s.len(),
    ensures
        match spec_next_token(s, pos) {
            Some(step) => pos < step.1 <= s.len(),
            None => true,
        },
{
    lemma_skip_ws(s, pos);
    let p = skip_ws(s, pos);
    if p < s.len() {
        if s[p] == '<' {
            if p + 1 < s.len() {
                if s[p + 1] == '/' {
                    lemma_find_from(s, p + 2, '>');
                } else {
                    lemma_find_from(s, p + 1, '>');
                }
            }
        } else {
            lemma_find_from(s, p, '<');
        }
    }
}

/// The whole token stream of `s` from `pos` on.
pub open spec fn spec_tokenize(s: Seq<char>, pos: int) -> Seq<TokenV>
    decreases s.len() - pos,
    when 0 <= pos <= s.len()
{
    match spec_next_token(s, pos) {
        None => Seq::empty(),
        Some(step) => {
            proof {
                lemma_spec_next_token(s, pos);
            }
            seq![step.0] + spec_tokenize(s, step.1)
        },
    }
}

/// Streaming tokenizer over a character buffer.
pub struct Tokenizer {
    pub chars: Vec<char>,
    pub pos: usize,
}

impl Tokenizer {
    pub fn new(input: &str) -> (r: Tokenizer)
        ensures
            r.chars@ == input@,
            r.pos == 0,
    {
        Tokenizer { chars: chars_of(input), pos: 0 }
    }

    /// Skip one character.
    pub fn advance(&mut self)
        ensures
            final(self).chars == old(self).chars,
            final(self).pos == if old(self).pos < old(self).chars.len() {
                old(self).pos + 1
            } else {
                old(self).pos as int
            },
    {
        if self.pos < self.chars.len() {
            self.pos = self.pos + 1;
        }
    }

    /// Read the raw inner text of a tag, up to and over the closing `>`.
    fn read_tag_name(&mut self) -> (r: String)
        requires
            old(self).pos <= old(self).chars.len(),
        ensures
            final(self).chars@ == old(self).chars@,
            r@ == old(self).chars@.subrange(
                old(self).pos as int,
                find_from(old(self).chars@, old(self).pos as int, '>'),
            ),
            final(self).pos as int == {
                let e = find_from(old(self).chars@, old(self).pos as int, '>');
                if e < old(self).chars@.len() {
                    e + 1
                } else {
                    e
                }
            },
    {
        let ghost s = self.chars@;
        let ghost start = self.pos as int;
        let mut name: Vec<char> = Vec::new();
        proof {
            lemma_find_from(s, start, '>');
        }
        loop
            invariant_except_break
                name@ == s.subrange(start, self.pos as int),
                forall|k: int| start <= k < self.pos as int ==> s[k] != '>',
            invariant
                0 <= start <= self.pos as int <= self.chars@.len(),
                self.chars@ == s,
            ensures
                name@ == s.subrange(start, find_from(s, start, '>')),
                self.pos as int == {
                    let e = find_from(s, start, '>');
                    if e < s.len() {
                        e + 1
                    } else {
                        e
                    }
                },
            decreases self.chars@.len() - self.pos,
        {
            if self.pos >= self.chars.len() {
                proof {
                    lemma_find_from(s, start, '>');
                    assert(find_from(s, start, '>') == self.pos as int);
                }
                break ;
            }
            let c = self.chars[self.pos];
            if c == '>' {
                proof {
                    lemma_find_from(s, start, '>');
                    assert(find_from(s, start, '>') == self.pos as int);
                }
                self.pos = self.pos + 1;
                break ;
            }
            name.push(c);
            proof {
                assert(s.subrange(start, self.pos + 1 as int) =~= s.subrange(
                    start,
                    self.pos as int,
                ).push(s[self.pos as int]));
            }
            self.pos = self.pos + 1;
        }
        string_of(&name)
    }

    /// Read character data, up to but not over the next `<`.
    fn read_text(&mut self) -> (r: String)
        requires
            old(self).pos <= old(self).chars.len(),
        ensures
            final(self).chars@ == old(self).chars@,
            r@ == old(self).chars@.subrange(
                old(self).pos as int,
                find_from(old(self).chars@, old(self).pos as int, '<'),
            ),
            final(self).pos as int == find_from(old(self).chars@, old(self).pos as int, '<'),
    {
        let ghost s = self.chars@;
        let ghost start = self.pos as int;
        let mut text: Vec<char> = Vec::new();
        proof {
            lemma_find_from(s, start, '<');
        }
        while self.pos < self.chars.len() && self.chars[self.pos] != '<'
            invariant
                0 <= start <= self.pos as int <= self.chars@.len(),
                self.chars@ == s,
                text@ == s.subrange(start, self.pos as int),
                forall|k: int| start <= k < self.pos as int ==> s[k] != '<',
            decreases self.chars@.len() - self.pos,
        {
            text.push(self.chars[self.pos]);
            proof {
                assert(s.subrange(start, self.pos + 1 as int) =~= s.subrange(
                    start,
                    self.pos as int,
                ).push(s[self.pos as int]));
            }
            self.pos = self.pos + 1;
        }
        proof {
            lemma_find_from(s, start, '<');
            assert(find_from(s, start, '<') == self.pos as int);
        }
        string_of(&text)
    }

    /// Produce the next token, or nothing at the end of the stream.
    pub fn next_token(&mut self) -> (r: Option<Token>)
        requires
            old(self).pos <= old(self).chars.len(),
        ensures
            final(self).chars@ == old(self).chars@,
            final(self).pos <= final(self).chars.len(),
            match r {
                Some(t) => spec_next_token(old(self).chars@, old(self).pos as int) == Some(
                    (t@, final(self).pos as int),
                ),
                None => spec_next_token(old(self).chars@, old(self).pos as int) is None
                    && final(self).pos == final(self).chars.len()
                    && old(self).pos <= final(self).pos,
            },
    {
        let ghost s = self.chars@;
        let ghost start = self.pos as int;
        while self.pos < self.chars.len() && ws_char(self.chars[self.pos])
            invariant
                0 <= start <= self.pos as int <= self.chars@.len(),
                self.chars@ == s,
                skip_ws(s, start) == skip_ws(s, self.pos as int),
            decreases self.chars@.len() - self.pos,
        {
            self.pos = self.pos + 1;
        }
        proof {
            assert(skip_ws(s, start) == self.pos as int);
        }
        if self.pos >= self.chars.len() {
            return None;
        }
        let c = self.chars[self.pos];
        if c == '<' {
            self.pos = self.pos + 1;
            if self.pos >= self.chars.len() {
                return None;
            }
            if self.chars[self.pos] == '/' {
                self.pos = self.pos + 1;
                let ghost rp = self.pos as int;
                let name = self.read_tag_name();
                proof {
                    lemma_find_from(s, rp, '>');
                }
                Some(Token::ClosingTag(name))
            } else {
                let ghost rp = self.pos as int;
                let name = self.read_tag_name();
                proof {
                    lemma_find_from(s, rp, '>');
                }
                Some(Token::OpeningTag(name))
            }
        } else {
            proof {
                lemma_find_from(s, self.pos as int, '<');
            }
            let text = self.read_text();
            Some(Token::Data(text))
        }
    }
}

/// Tokenize a whole input buffer.
pub fn tokenize_all(input: &str) -> (r: Vec<Token>)
    ensures
        r@.map_values(|t: Token| t@) == spec_tokenize(input@, 0),
{
    let mut tk = Tokenizer::new(input);
    let mut out: Vec<Token> = Vec::new();
    let ghost s = tk.chars@;
    loop
        invariant_except_break
            out@.map_values(|t: Token| t@) + spec_tokenize(s, tk.pos as int) == spec_tokenize(
                s,
                0,
            ),
        invariant
            tk.pos <= tk.chars.len(),
            tk.chars@ == s,
            s == input@,
        ensures
            out@.map_values(|t: Token| t@) == spec_tokenize(input@, 0),
        decreases tk.chars@.len() - tk.pos,
    {
        let ghost prev = out@.map_values(|t: Token| t@);
        let ghost prevpos = tk.pos as int;
        match tk.next_token() {
            Some(t) => {
                proof {
                    lemma_spec_next_token(s, prevpos);
                }
                out.push(t);
                proof {
                    assert(out@.map_values(|t: Token| t@) =~= prev.push(out@.last()@));
                    assert(prev.push(out@.last()@) + spec_tokenize(s, tk.pos as int) =~= prev + (
                    seq![out@.last()@] + spec_tokenize(s, tk.pos as int)));
                }
            },
            None => {
                proof {
                    assert(spec_tokenize(s, prevpos) =~= Seq::<TokenV>::empty());
                    assert(prev + Seq::<TokenV>::empty() =~= prev);
                }
                break ;
            },
        }
    }
    out
}

} // verus!
