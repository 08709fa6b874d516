use vstd::prelude::*;
use vstd::std_specs::iter::IteratorSpec;

verus! {

/// The Unicode code points with the White_Space property, the set that
/// `char::is_whitespace` recognises.
pub open spec fn is_ws(c: char) -> bool {
    ||| c == ' '
    ||| c == '\t'
    ||| c == '\n'
    ||| c == '\u{0b}'
    ||| c == '\u{0c}'
    ||| c == '\r'
    ||| c == '\u{85}'
    ||| c == '\u{a0}'
    ||| c == '\u{1680}'
    ||| c == '\u{2000}'
    ||| c == '\u{2001}'
    ||| c == '\u{2002}'
    ||| c == '\u{2003}'
    ||| c == '\u{2004}'
    ||| c == '\u{2005}'
    ||| c == '\u{2006}'
    ||| c == '\u{2007}'
    ||| c == '\u{2008}'
    ||| c == '\u{2009}'
    ||| c == '\u{200a}'
    ||| c == '\u{2028}'
    ||| c == '\u{2029}'
    ||| c == '\u{202f}'
    ||| c == '\u{205f}'
    ||| c == '\u{3000}'
}

/// Executable test for `is_ws`.
pub fn ws_char(c: char) -> (r: bool)
    ensures
        r == is_ws(c),
{
    c == ' ' || c == '\t' || c == '\n' || c == '\u{0b}' || c == '\u{0c}' || c == '\r'
        || c == '\u{85}' || c == '\u{a0}' || c == '\u{1680}' || c == '\u{2000}' || c == '\u{2001}'
        || c == '\u{2002}' || c == '\u{2003}' || c == '\u{2004}' || c == '\u{2005}'
        || c == '\u{2006}' || c == '\u{2007}' || c == '\u{2008}' || c == '\u{2009}'
        || c == '\u{200a}' || c == '\u{2028}' || c == '\u{2029}' || c == '\u{202f}'
        || c == '\u{205f}' || c == '\u{3000}'
}

/// Collect the characters of a string slice into a vector.
pub fn chars_of(s: &str) -> (v: Vec<char>)
    ensures
        v@ == s@,
{
    broadcast use vstd::string::next_postcondition;
    broadcast use vstd::string::axiom_spec_iter;

    let mut it = s.chars();
    let mut v: Vec<char> = Vec::new();
    loop
        invariant
            it.obeys_prophetic_iter_laws(),
            it.decrease() is Some,
            v@ + it.remaining() == s@,
        ensures
            v@ == s@,
        decreases it.decrease()->0,
    {
        match it.next() {
            Some(c) => {
                v.push(c);
            },
            None => {
                proof {
                    assert(v@ =~= v@ + it.remaining());
                }
                break ;
            },
        }
    }
    v
}

/// Relies on `String::push` from std: appends the given character to the end
/// of the string.
#[verifier::external_body]
fn push_char(s: &mut String, c: char)
    ensures
        final(s)@ == old(s)@.push(c),
{
    s.push(c);
}

/// Build an owned string out of a vector of characters.
pub fn string_of(cs: &Vec<char>) -> (s: String)
    ensures
        s@ == cs@,
{
    let mut s = String::new();
    let mut i: usize = 0;
    while i < cs.len()
        invariant
            i <= cs.len(),
            s@ == cs@.take(i as int),
        decreases cs.len() - i,
    {
        push_char(&mut s, cs[i]);
        proof {
            assert(cs@.take(i + 1 as int) =~= cs@.take(i as int).push(cs@[i as int]));
        }
        i = i + 1;
    }
    proof {
        assert(cs@.take(cs@.len() as int) =~= cs@);
    }
    s
}

/// Compare two string slices by their character content.
pub fn str_eq(a: &str, b: &str) -> (r: bool)
    ensures
        r == (a@ == b@),
{
    let sa = String::from_str(a);
    let sb = String::from_str(b);
    sa == sb
}

/// Compare an owned string against a string slice by character content.
pub fn string_is(s: &String, t: &str) -> (r: bool)
    ensures
        r == (s@ == t@),
{
    let st = String::from_str(t);
    *s == st
}

/// Index of the first character at or after `pos` that is not whitespace.
pub open spec fn skip_ws(s: Seq<char>, pos: int) -> int
    decreases s.len() - pos,
{
    if 0 <= pos < s.len() && is_ws(s[pos]) {
        skip_ws(s, pos + 1)
    } else {
        pos
    }
}

pub proof fn lemma_skip_ws(s: Seq<char>, pos: int)
    requires
        0 <= pos <= s.len(),
    ensures
        pos <= skip_ws(s, pos) <= s.len(),
        skip_ws(s, pos) < s.len() ==> !is_ws(s[skip_ws(s, pos)]),
        forall|i: int| pos <= i < skip_ws(s, pos) ==> is_ws(s[i]),
    decreases s.len() - pos,
{
    if pos < s.len() && is_ws(s[pos]) {
        lemma_skip_ws(s, pos + 1);
    }
}

/// Index of the first occurrence of `stop` at or after `pos`, or the length
/// of the sequence if there is none.
pub open spec fn find_from(s: Seq<char>, pos: int, stop: char) -> int
    decreases s.len() - pos,
{
    if 0 <= pos < s.len() {
        if s[pos] == stop {
            pos
        } else {
            find_from(s, pos + 1, stop)
        }
    } else {
        pos
    }
}

pub proof fn lemma_find_from(s: Seq<char>, pos: int, stop: char)
    requires
        0 <= pos <= s.len(),
    ensures
        pos <= find_from(s, pos, stop) <= s.len(),
        find_from(s, pos, stop) < s.len() ==> s[find_from(s, pos, stop)] == stop,
        forall|i: int| pos <= i < find_from(s, pos, stop) ==> s[i] != stop,
    decreases s.len() - pos,
{
    if pos < s.len() && s[pos] != stop {
        lemma_find_from(s, pos + 1, stop);
    }
}

/// Index of the first whitespace character at or after `pos`, or the length
/// of the sequence if there is none.
pub open spec fn find_ws_from(s: Seq<char>, pos: int) -> int
    decreases s.len() - pos,
{
    if 0 <= pos < s.len() {
        if is_ws(s[pos]) {
            pos
        } else {
            find_ws_from(s, pos + 1)
        }
    } else {
        pos
    }
}

pub proof fn lemma_find_ws_from(s: Seq<char>, pos: int)
    requires
        0 <= pos <= s.len(),
    ensures
        pos <= find_ws_from(s, pos) <= s.len(),
        find_ws_from(s, pos) < s.len() ==> is_ws(s[find_ws_from(s, pos)]),
        forall|i: int| pos <= i < find_ws_from(s, pos) ==> !is_ws(s[i]),
    decreases s.len() - pos,
{
    if pos < s.len() && !is_ws(s[pos]) {
        lemma_find_ws_from(s, pos + 1);
    }
}

/// The pieces of `s` from `pos` on, cut at every occurrence of `sep`.
/// Separators at the edges and adjacent separators produce empty pieces,
/// as `str::split` does.
pub open spec fn spec_split_from(s: Seq<char>, pos: int, sep: char) -> Seq<Seq<char>>
    decreases s.len() - pos,
{
    if 0 <= pos <= s.len() {
        let i = find_from(s, pos, sep);
        if i >= s.len() {
            seq![s.subrange(pos, s.len() as int)]
        } else {
            proof {
                lemma_find_from(s, pos, sep);
            }
            seq![s.subrange(pos, i)] + spec_split_from(s, i + 1, sep)
        }
    } else {
        Seq::empty()
    }
}

/// Split a string at every occurrence of `sep`.
pub fn split_char(s: &str, sep: char) -> (r: Vec<String>)
    ensures
        r@.map_values(|x: String| x@) == spec_split_from(s@, 0, sep),
{
    let cs = chars_of(s);
    let mut out: Vec<String> = Vec::new();
    let mut cur: usize = 0;
    loop
        invariant_except_break
            out@.map_values(|x: String| x@) + spec_split_from(s@, cur as int, sep)
                == spec_split_from(s@, 0, sep),
        invariant
            cur <= cs.len(),
            cs@ == s@,
        ensures
            out@.map_values(|x: String| x@) == spec_split_from(s@, 0, sep),
        decreases cs.len() - cur,
    {
        let ghost prev = out@.map_values(|x: String| x@);
        let mut j: usize = cur;
        let mut piece: Vec<char> = Vec::new();
        while j < cs.len() && cs[j] != sep
            invariant
                cur <= j <= cs.len(),
                cs@ == s@,
                piece@ == s@.subrange(cur as int, j as int),
                forall|k: int| cur <= k < j ==> s@[k] != sep,
            decreases cs.len() - j,
        {
            piece.push(cs[j]);
            proof {
                assert(s@.subrange(cur as int, j + 1 as int) =~= s@.subrange(
                    cur as int,
                    j as int,
                ).push(s@[j as int]));
            }
            j = j + 1;
        }
        proof {
            lemma_find_from(s@, cur as int, sep);
            assert(find_from(s@, cur as int, sep) == j as int);
        }
        let pstr = string_of(&piece);
        out.push(pstr);
        proof {
            assert(out@.map_values(|x: String| x@) =~= prev.push(piece@));
        }
        if j >= cs.len() {
            proof {
                assert(spec_split_from(s@, cur as int, sep) =~= seq![piece@]);
                assert(prev.push(piece@) =~= prev + seq![piece@]);
            }
            break ;
        }
        proof {
            assert(spec_split_from(s@, cur as int, sep) == seq![piece@] + spec_split_from(
                s@,
                j + 1 as int,
                sep,
            ));
            assert(prev.push(piece@) + spec_split_from(s@, j + 1 as int, sep) =~= prev + (
            seq![piece@] + spec_split_from(s@, j + 1 as int, sep)));
        }
        cur = j + 1;
    }
    out
}

} // verus!
