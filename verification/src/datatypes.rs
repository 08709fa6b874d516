use vstd::prelude::*;
use crate::strutil::{spec_split_from, split_char, string_is};

verus! {

broadcast use vstd::std_specs::vec::axiom_vec_index_decreases;

/// One lexical unit of the markup input: the raw inner text of an opening
/// tag, the name of a closing tag, or a run of character data.
#[derive(Debug)]
pub enum Token {
    OpeningTag(String),
    ClosingTag(String),
    Data(String),
}

/// Mathematical image of a `Token`.
pub enum TokenV {
    OpeningTag(Seq<char>),
    ClosingTag(Seq<char>),
    Data(Seq<char>),
}

impl View for Token {
    type V = TokenV;

    open spec fn view(&self) -> TokenV {
        match self {
            Token::OpeningTag(s) => TokenV::OpeningTag(s@),
            Token::ClosingTag(s) => TokenV::ClosingTag(s@),
            Token::Data(s) => TokenV::Data(s@),
        }
    }
}

pub enum HeadTag {
    Title,
    Meta,
}

pub enum BodyTag {
    H1,
    H2,
    H3,
    H4,
    H5,
    H6,
    P,
}

/// A mapping from string keys to values, stored as the sequence of
/// insertions; a later insertion of a key shadows an earlier one, so the
/// abstract view is a finite map.
#[derive(Debug)]
pub struct StrMap<V> {
    pub entries: Vec<(String, V)>,
}

/// The map denoted by an insertion sequence: each entry overwrites the
/// binding of its key.
pub open spec fn map_of<V: View>(entries: Seq<(String, V)>) -> Map<Seq<char>, V::V>
    decreases entries.len(),
{
    if entries.len() == 0 {
        Map::empty()
    } else {
        map_of(entries.drop_last()).insert((entries.last().0)@, (entries.last().1)@)
    }
}

impl<V: View> View for StrMap<V> {
    type V = Map<Seq<char>, V::V>;

    open spec fn view(&self) -> Map<Seq<char>, V::V> {
        map_of(self.entries@)
    }
}

impl<V: View> StrMap<V> {
    pub fn new() -> (r: Self)
        ensures
            r@ == Map::<Seq<char>, V::V>::empty(),
    {
        StrMap { entries: Vec::new() }
    }

    /// Bind `k` to `v`, shadowing any earlier binding of `k`.
    pub fn insert(&mut self, k: String, v: V)
        ensures
            final(self)@ == old(self)@.insert(k@, v@),
    {
        let ghost oldentries = self.entries@;
        let ghost kv = (k, v);
        self.entries.push((k, v));
        proof {
            assert(self.entries@.drop_last() =~= oldentries);
        }
    }

    /// Look up the current binding of `name`.
    pub fn get(&self, name: &str) -> (r: Option<&V>)
        ensures
            match r {
                Some(v) => self@.contains_key(name@) && v@ == self@[name@],
                None => !self@.contains_key(name@),
            },
    {
        let mut i: usize = self.entries.len();
        proof {
            assert(self.entries@.take(self.entries@.len() as int) =~= self.entries@);
        }
        loop
            invariant
                i <= self.entries.len(),
                map_of(self.entries@).contains_key(name@) == map_of(
                    self.entries@.take(i as int),
                ).contains_key(name@),
                map_of(self.entries@).contains_key(name@) ==> map_of(self.entries@)[name@]
                    == map_of(self.entries@.take(i as int))[name@],
            decreases i,
        {
            if i == 0 {
                proof {
                    assert(self.entries@.take(0) =~= Seq::<(String, V)>::empty());
                }
                return None;
            }
            i = i - 1;
            proof {
                assert(self.entries@.take(i + 1 as int).drop_last() =~= self.entries@.take(
                    i as int,
                ));
                assert(self.entries@.take(i + 1 as int).last() == self.entries@[i as int]);
            }
            if string_is(&self.entries[i].0, name) {
                return Some(&self.entries[i].1);
            }
        }
    }
}

pub type AttrMap = StrMap<String>;

/// A node of the markup tree: an element or a run of text.
#[derive(Debug)]
pub enum Node {
    Element(Element),
    Text(String),
}

/// An element: a name, an attribute mapping, and the child nodes in source
/// order.
#[derive(Debug)]
pub struct Element {
    pub name: String,
    pub attributes: AttrMap,
    pub children: Vec<Node>,
}

pub enum NodeV {
    Element(ElementV),
    Text(Seq<char>),
}

pub struct ElementV {
    pub name: Seq<char>,
    pub attributes: Map<Seq<char>, Seq<char>>,
    pub children: Seq<NodeV>,
}

pub open spec fn node_view(n: Node) -> NodeV
    decreases n, 0int,
{
    match n {
        Node::Element(e) => NodeV::Element(elem_view(e)),
        Node::Text(t) => NodeV::Text(t@),
    }
}

pub open spec fn elem_view(e: Element) -> ElementV
    decreases e, 1int,
{
    ElementV {
        name: e.name@,
        attributes: map_of(e.attributes.entries@),
        children: nodes_view(e.children, 0),
    }
}

pub open spec fn nodes_view(cs: Vec<Node>, i: int) -> Seq<NodeV>
    decreases cs, cs.len() - i,
{
    if 0 <= i < cs.len() {
        seq![node_view(cs[i as int])] + nodes_view(cs, i + 1)
    } else {
        Seq::empty()
    }
}

/// `nodes_view(cs, i)` is the pointwise image of the node vector from `i` on.
pub proof fn lemma_nodes_view(cs: Vec<Node>, i: int)
    requires
        0 <= i <= cs.len(),
    ensures
        nodes_view(cs, i).len() == cs.len() - i,
        forall|k: int| 0 <= k < cs.len() - i ==> nodes_view(cs, i)[k] == node_view(cs[i + k]),
    decreases cs.len() - i,
{
    if i < cs.len() {
        lemma_nodes_view(cs, i + 1);
    }
}

impl View for Node {
    type V = NodeV;

    open spec fn view(&self) -> NodeV {
        node_view(*self)
    }
}

impl View for Element {
    type V = ElementV;

    open spec fn view(&self) -> ElementV {
        elem_view(*self)
    }
}

impl Element {
    pub fn new(name: String) -> (r: Element)
        ensures
            r@ == (ElementV {
                name: name@,
                attributes: Map::<Seq<char>, Seq<char>>::empty(),
                children: Seq::<NodeV>::empty(),
            }),
    {
        let r = Element { name, children: Vec::new(), attributes: StrMap::new() };
        proof {
            lemma_nodes_view(r.children, 0);
            assert(nodes_view(r.children, 0) =~= Seq::<NodeV>::empty());
        }
        r
    }

    /// Append a child node, keeping source order.
    pub fn add_child(&mut self, child: Node)
        ensures
            final(self)@ == (ElementV {
                children: old(self)@.children.push(child@),
                ..old(self)@
            }),
    {
        let ghost oldchildren = self.children;
        let ghost c = child;
        self.children.push(child);
        proof {
            lemma_nodes_view(self.children, 0);
            lemma_nodes_view(oldchildren, 0);
            assert(nodes_view(self.children, 0) =~= nodes_view(oldchildren, 0).push(node_view(c)));
        }
    }

    /// The `id` attribute, if present.
    pub fn id(&self) -> (r: Option<&String>)
        ensures
            match r {
                Some(v) => self@.attributes.contains_key("id"@) && v@ == self@.attributes["id"@],
                None => !self@.attributes.contains_key("id"@),
            },
    {
        self.attributes.get("id")
    }

    /// The element's classes: the value of the `class` attribute split at
    /// single spaces, or nothing when the attribute is absent.
    pub fn classes(&self) -> (r: Vec<String>)
        ensures
            r@.map_values(|x: String| x@) == spec_classes(self@),
    {
        match self.attributes.get("class") {
            Some(classlist) => split_char(classlist.as_str(), ' '),
            None => Vec::new(),
        }
    }
}

/// The class list of an element, as the cascade sees it.
pub open spec fn spec_classes(e: ElementV) -> Seq<Seq<char>> {
    if e.attributes.contains_key("class"@) {
        spec_split_from(e.attributes["class"@], 0, ' ')
    } else {
        Seq::empty()
    }
}

} // verus!
