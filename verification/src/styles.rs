use vstd::prelude::*;
use crate::css::{
    spec3_less,
    spec3_lt,
    spec_specificity,
    DeclarationV,
    Rule,
    RuleV,
    Selector,
    SelectorV,
    SimpleSelector,
    SimpleSelectorV,
    Specificity,
    Stylesheet,
    Value,
    ValueV,
};
use crate::datatypes::{map_of, spec_classes, Element, ElementV, Node, NodeV, StrMap};
use crate::strutil::string_is;

verus! {

broadcast use vstd::std_specs::vec::axiom_vec_index_decreases;

/// The computed properties of one node: property name to value, at most
/// one value per name.
pub type PropertyMap = StrMap<Value>;

/// A node of the styled tree: it owns the text of a text node, its
/// computed property mapping, and its children, shaped like the markup
/// tree.
pub struct StyleNode {
    pub text: Option<String>,
    pub style_values: PropertyMap,
    pub children: Vec<StyleNode>,
}

pub struct StyleNodeV {
    pub text: Option<Seq<char>>,
    pub props: Map<Seq<char>, ValueV>,
    pub children: Seq<StyleNodeV>,
}

pub open spec fn stylenode_view(sn: StyleNode) -> StyleNodeV
    decreases sn, 0int,
{
    StyleNodeV {
        text: match sn.text {
            Some(t) => Some(t@),
            None => None,
        },
        props: map_of(sn.style_values.entries@),
        children: stylenodes_view(sn.children, 0),
    }
}

pub open spec fn stylenodes_view(cs: Vec<StyleNode>, i: int) -> Seq<StyleNodeV>
    decreases cs, cs.len() - i,
{
    if 0 <= i < cs.len() {
        seq![stylenode_view(cs[i as int])] + stylenodes_view(cs, i + 1)
    } else {
        Seq::empty()
    }
}

pub proof fn lemma_stylenodes_view(cs: Vec<StyleNode>, i: int)
    requires
        0 <= i <= cs.len(),
    ensures
        stylenodes_view(cs, i).len() == cs.len() - i,
        forall|k: int|
            0 <= k < cs.len() - i ==> stylenodes_view(cs, i)[k] == stylenode_view(cs[i + k]),
    decreases cs.len() - i,
{
    if i < cs.len() {
        lemma_stylenodes_view(cs, i + 1);
    }
}

impl View for StyleNode {
    type V = StyleNodeV;

    open spec fn view(&self) -> StyleNodeV {
        stylenode_view(*self)
    }
}

/// The display kind of a styled node; `Hidden` stands for the keyword
/// `none`, which excludes the node and its whole subtree from layout.
#[derive(Clone, Copy, PartialEq, Eq, Structural, Debug)]
pub enum Display {
    Inline,
    Block,
    Hidden,
}

/// Whether a simple selector accepts an element: every part it specifies
/// must hold of the element.
pub open spec fn spec_match_simple(e: ElementV, ss: SimpleSelectorV) -> bool {
    &&& match ss.tag {
        Some(t) => e.name == t,
        None => true,
    }
    &&& match ss.id {
        Some(id) => e.attributes.contains_key("id"@) && e.attributes["id"@] == id,
        None => true,
    }
    &&& forall|k: int| 0 <= k < ss.class.len() ==> spec_classes(e).contains(#[trigger] ss.class[k])
}

pub open spec fn spec_match_selector(e: ElementV, sel: SelectorV) -> bool {
    match sel {
        SelectorV::Simple(ss) => spec_match_simple(e, ss),
    }
}

/// The first selector of the list that accepts the element.
pub open spec fn spec_first_match(e: ElementV, sels: Seq<SelectorV>) -> Option<SelectorV>
    decreases sels.len(),
{
    if sels.len() == 0 {
        None
    } else if spec_match_selector(e, sels[0]) {
        Some(sels[0])
    } else {
        spec_first_match(e, sels.drop_first())
    }
}

/// The specificity a rule matches an element with: that of the first of
/// its selectors that accepts the element (the list is kept sorted by
/// descending specificity, so this is the highest matching one).
pub open spec fn spec_match_rule(e: ElementV, rule: RuleV) -> Option<(int, int, int)> {
    match spec_first_match(e, rule.selector) {
        Some(sel) => Some(spec_specificity(sel)),
        None => None,
    }
}

/// The value the declaration list gives a property name: the last
/// declaration of that name wins.
pub open spec fn decl_value(decls: Seq<DeclarationV>, name: Seq<char>) -> Option<ValueV>
    decreases decls.len(),
{
    if decls.len() == 0 {
        None
    } else if decls.last().name == name {
        Some(decls.last().value)
    } else {
        decl_value(decls.drop_last(), name)
    }
}

/// Whether a rule contributes a value for `name` on `e`.
pub open spec fn contributes(e: ElementV, rule: RuleV, name: Seq<char>) -> bool {
    spec_match_rule(e, rule) is Some && decl_value(rule.declaration, name) is Some
}

/// The winning (specificity, value) pair for one property name: among the
/// matching rules that declare the name, the one with the highest
/// specificity; among equals, the latest in source order.
pub open spec fn spec_winner(rules: Seq<RuleV>, e: ElementV, name: Seq<char>) -> Option<
    ((int, int, int), ValueV),
>
    decreases rules.len(),
{
    if rules.len() == 0 {
        None
    } else {
        let rest = spec_winner(rules.drop_last(), e, name);
        let cur = if contributes(e, rules.last(), name) {
            Some(
                (
                    spec_match_rule(e, rules.last())->Some_0,
                    decl_value(rules.last().declaration, name)->Some_0,
                ),
            )
        } else {
            None
        };
        match (cur, rest) {
            (Option::None, r) => r,
            (Option::Some(c), Option::None) => Some(c),
            (Option::Some(c), Option::Some(r)) => if !spec3_lt(c.0, r.0) {
                Some(c)
            } else {
                Some(r)
            },
        }
    }
}

/// The computed property mapping of an element: for each name, the value
/// of the winning declaration.
pub open spec fn spec_specified_values(rules: Seq<RuleV>, e: ElementV) -> Map<Seq<char>, ValueV> {
    Map::new(
        |name: Seq<char>| spec_winner(rules, e, name) is Some,
        |name: Seq<char>| spec_winner(rules, e, name)->Some_0.1,
    )
}

/// Cascade determinism. Among the rules that match `e` and declare
/// `name`, let `i` be the one whose specificity every earlier contributor
/// does not exceed and every later contributor stays strictly below: then
/// the computed value for `name` is rule `i`'s last declaration of it. In
/// particular, with all specificities distinct the highest-specificity
/// contributor wins, and among contributors of equal specificity the
/// latest in source order wins.
pub proof fn lemma_cascade_determinism(rules: Seq<RuleV>, e: ElementV, name: Seq<char>, i: int)
    requires
        0 <= i < rules.len(),
        contributes(e, rules[i], name),
        forall|j: int|
            0 <= j < i && #[trigger] contributes(e, rules[j], name) ==> !spec3_lt(
                spec_match_rule(e, rules[i])->Some_0,
                spec_match_rule(e, rules[j])->Some_0,
            ),
        forall|j: int|
            i < j < rules.len() && #[trigger] contributes(e, rules[j], name) ==> spec3_lt(
                spec_match_rule(e, rules[j])->Some_0,
                spec_match_rule(e, rules[i])->Some_0,
            ),
    ensures
        spec_winner(rules, e, name) == Some(
            (
                spec_match_rule(e, rules[i])->Some_0,
                decl_value(rules[i].declaration, name)->Some_0,
            ),
        ),
        spec_specified_values(rules, e)[name] == decl_value(rules[i].declaration, name)->Some_0,
    decreases rules.len(),
{
    let front = rules.drop_last();
    if i == rules.len() - 1 {
        if spec_winner(front, e, name) is Some {
            lemma_winner_is_contributor(front, e, name);
        }
    } else {
        assert(front[i] == rules[i]);
        assert(forall|j: int|
            0 <= j < front.len() && #[trigger] contributes(e, front[j], name) ==> contributes(
                e,
                rules[j],
                name,
            ) && front[j] == rules[j]);
        lemma_cascade_determinism(front, e, name, i);
        if contributes(e, rules.last(), name) {
            assert(rules.last() == rules[rules.len() - 1]);
        }
    }
}

/// A winner is one of the contributing rules, with its specificity and
/// value.
pub proof fn lemma_winner_is_contributor(rules: Seq<RuleV>, e: ElementV, name: Seq<char>)
    requires
        spec_winner(rules, e, name) is Some,
    ensures
        exists|j: int|
            0 <= j < rules.len() && #[trigger] contributes(e, rules[j], name) && spec_winner(
                rules,
                e,
                name,
            )->Some_0 == (
                spec_match_rule(e, rules[j])->Some_0,
                decl_value(rules[j].declaration, name)->Some_0,
            ),
    decreases rules.len(),
{
    let front = rules.drop_last();
    let rest = spec_winner(front, e, name);
    if contributes(e, rules.last(), name) {
        let c = (
            spec_match_rule(e, rules.last())->Some_0,
            decl_value(rules.last().declaration, name)->Some_0,
        );
        if rest is Some && spec3_lt(c.0, rest->Some_0.0) {
            lemma_winner_is_contributor(front, e, name);
            let j = choose|j: int|
                0 <= j < front.len() && #[trigger] contributes(e, front[j], name) && rest->Some_0
                    == (
                    spec_match_rule(e, front[j])->Some_0,
                    decl_value(front[j].declaration, name)->Some_0,
                );
            assert(front[j] == rules[j]);
            assert(contributes(e, rules[j], name));
        } else {
            assert(rules.last() == rules[rules.len() - 1]);
            assert(contributes(e, rules[rules.len() - 1], name));
        }
    } else {
        lemma_winner_is_contributor(front, e, name);
        let j = choose|j: int|
            0 <= j < front.len() && #[trigger] contributes(e, front[j], name) && rest->Some_0 == (
                spec_match_rule(e, front[j])->Some_0,
                decl_value(front[j].declaration, name)->Some_0,
            );
        assert(front[j] == rules[j]);
        assert(contributes(e, rules[j], name));
    }
}

/// Whether a simple selector accepts an element.
pub fn match_simple_selector(elem: &Element, selector: &SimpleSelector) -> (r: bool)
    ensures
        r == spec_match_simple(elem@, selector@),
{
    match &selector.tag {
        Some(t) => {
            if !string_is(t, elem.name.as_str()) {
                return false;
            }
        },
        None => {},
    }
    match &selector.id {
        Some(id) => {
            match elem.id() {
                Some(v) => {
                    if !string_is(v, id.as_str()) {
                        return false;
                    }
                },
                None => {
                    return false;
                },
            }
        },
        None => {},
    }
    let classes = elem.classes();
    let ghost classesv = classes@.map_values(|x: String| x@);
    let mut k: usize = 0;
    while k < selector.class.len()
        invariant
            0 <= k <= selector.class@.len(),
            classesv == spec_classes(elem@),
            classesv == classes@.map_values(|x: String| x@),
            forall|k2: int|
                0 <= k2 < k as int ==> spec_classes(elem@).contains(
                    #[trigger] selector@.class[k2],
                ),
        decreases selector.class@.len() - k,
    {
        let cls = &selector.class[k];
        let mut found = false;
        let mut j: usize = 0;
        while j < classes.len()
            invariant
                0 <= j <= classes@.len(),
                classesv == classes@.map_values(|x: String| x@),
                found ==> classesv.contains(cls@),
                !found ==> forall|j2: int| 0 <= j2 < j as int ==> classesv[j2] != cls@,
            decreases classes@.len() - j,
        {
            if string_is(&classes[j], cls.as_str()) {
                found = true;
                proof {
                    assert(classesv[j as int] == cls@);
                }
            }
            j = j + 1;
        }
        if !found {
            proof {
                assert(!classesv.contains(cls@));
                assert(selector@.class[k as int] == cls@);
            }
            return false;
        }
        proof {
            assert(selector@.class[k as int] == cls@);
        }
        k = k + 1;
    }
    true
}

/// Whether a selector accepts an element.
pub fn selector_matches(elem: &Element, selector: &Selector) -> (r: bool)
    ensures
        r == spec_match_selector(elem@, selector@),
{
    match selector {
        Selector::Simple(simple_sel) => match_simple_selector(elem, simple_sel),
    }
}

/// The specificity a rule matches an element with, if any.
fn match_rule(elem: &Element, rule: &Rule) -> (r: Option<Specificity>)
    ensures
        match r {
            Some(sp) => spec_match_rule(elem@, rule@) == Some(
                (sp.0 as int, sp.1 as int, sp.2 as int),
            ),
            None => spec_match_rule(elem@, rule@) is None,
        },
{
    let mut j: usize = 0;
    proof {
        assert(rule@.selector.skip(0) =~= rule@.selector);
    }
    loop
        invariant
            0 <= j <= rule.selector@.len(),
            spec_first_match(elem@, rule@.selector) == spec_first_match(
                elem@,
                rule@.selector.skip(j as int),
            ),
        decreases rule.selector@.len() - j,
    {
        if j >= rule.selector.len() {
            proof {
                assert(rule@.selector.skip(j as int).len() == 0);
            }
            return None;
        }
        proof {
            assert(rule@.selector.skip(j as int)[0] == rule@.selector[j as int]);
            assert(rule@.selector[j as int] == rule.selector@[j as int]@);
        }
        if selector_matches(elem, &rule.selector[j]) {
            let sp = rule.selector[j].specificity();
            return Some(sp);
        }
        proof {
            assert(rule@.selector.skip(j as int).drop_first() =~= rule@.selector.skip(
                j + 1 as int,
            ));
        }
        j = j + 1;
    }
}

/// A value carrying the specificity that put it in the working map.
pub struct Weighted {
    pub a: usize,
    pub b: usize,
    pub c: usize,
    pub value: Value,
}

pub struct WeightedV {
    pub spec3: (int, int, int),
    pub value: ValueV,
}

impl View for Weighted {
    type V = WeightedV;

    open spec fn view(&self) -> WeightedV {
        WeightedV { spec3: (self.a as int, self.b as int, self.c as int), value: self.value@ }
    }
}

/// Fold the matched declarations of one rule into the working map: a
/// declaration replaces the stored value of its name unless a strictly
/// higher specificity put it there.
fn fold_rule(work: &mut StrMap<Weighted>, rule: &Rule, sp: Specificity, Ghost(e): Ghost<ElementV>)
    requires
        spec_match_rule(e, rule@) == Some((sp.0 as int, sp.1 as int, sp.2 as int)),
    ensures
        forall|name: Seq<char>|
            {
                let cur = #[trigger] decl_value(rule@.declaration, name);
                let prior = if old(work)@.contains_key(name) {
                    Some(old(work)@[name])
                } else {
                    None::<WeightedV>
                };
                let res = if final(work)@.contains_key(name) {
                    Some(final(work)@[name])
                } else {
                    None::<WeightedV>
                };
                match (cur, prior) {
                    (Option::None, _) => res == prior,
                    (Option::Some(v), Option::None) => res == Some(
                        WeightedV { spec3: (sp.0 as int, sp.1 as int, sp.2 as int), value: v },
                    ),
                    (Option::Some(v), Option::Some(pw)) => if !spec3_lt(
                        (sp.0 as int, sp.1 as int, sp.2 as int),
                        pw.spec3,
                    ) {
                        res == Some(
                            WeightedV {
                                spec3: (sp.0 as int, sp.1 as int, sp.2 as int),
                                value: v,
                            },
                        )
                    } else {
                        res == prior
                    },
                }
            },
{
    let ghost decls = rule@.declaration;
    let mut j: usize = 0;
    proof {
        assert(decls.take(0) =~= Seq::<DeclarationV>::empty());
    }
    while j < rule.declaration.len()
        invariant
            0 <= j <= rule.declaration@.len(),
            decls == rule@.declaration,
            decls.len() == rule.declaration@.len(),
            forall|name: Seq<char>|
                {
                    let cur = #[trigger] decl_value(decls.take(j as int), name);
                    let prior = if old(work)@.contains_key(name) {
                        Some(old(work)@[name])
                    } else {
                        None::<WeightedV>
                    };
                    let res = if work@.contains_key(name) {
                        Some(work@[name])
                    } else {
                        None::<WeightedV>
                    };
                    match (cur, prior) {
                        (Option::None, _) => res == prior,
                        (Option::Some(v), Option::None) => res == Some(
                            WeightedV {
                                spec3: (sp.0 as int, sp.1 as int, sp.2 as int),
                                value: v,
                            },
                        ),
                        (Option::Some(v), Option::Some(pw)) => if !spec3_lt(
                            (sp.0 as int, sp.1 as int, sp.2 as int),
                            pw.spec3,
                        ) {
                            res == Some(
                                WeightedV {
                                    spec3: (sp.0 as int, sp.1 as int, sp.2 as int),
                                    value: v,
                                },
                            )
                        } else {
                            res == prior
                        },
                    }
                },
        decreases rule.declaration@.len() - j,
    {
        let d = &rule.declaration[j];
        let ghost dv = d@;
        let take_it = match work.get(d.name.as_str()) {
            Some(w) => {
                let wsp: Specificity = (w.a, w.b, w.c);
                !spec3_less(sp, wsp)
            },
            None => true,
        };
        if take_it {
            let nm = d.name.clone();
            let vv = d.value.duplicate();
            work.insert(nm, Weighted { a: sp.0, b: sp.1, c: sp.2, value: vv });
        }
        proof {
            assert(decls.take(j + 1 as int).drop_last() =~= decls.take(j as int));
            assert(decls.take(j + 1 as int).last() == decls[j as int]);
            assert(decls[j as int] == dv);
            assert forall|name: Seq<char>|
                #[trigger] decl_value(decls.take(j + 1 as int), name) == if dv.name == name {
                    Some(dv.value)
                } else {
                    decl_value(decls.take(j as int), name)
                } by {
                assert(decl_value(decls.take(j + 1 as int), name) == if decls.take(
                    j + 1 as int,
                ).last().name == name {
                    Some(decls.take(j + 1 as int).last().value)
                } else {
                    decl_value(decls.take(j + 1 as int).drop_last(), name)
                });
            }
        }
        j = j + 1;
    }
    proof {
        assert(decls.take(decls.len() as int) =~= decls);
    }
}

/// Compute the property mapping of one element against the stylesheet:
/// rules are taken in source order and a declaration displaces the stored
/// value of its name unless a strictly higher specificity put it there,
/// which realises "highest specificity wins; among equals, the later rule
/// wins".
pub fn specified_values(elem: &Element, stylesheet: &Stylesheet) -> (r: PropertyMap)
    ensures
        r@ == spec_specified_values(stylesheet@.rules, elem@),
{
    let ghost rl = stylesheet@.rules;
    let mut work: StrMap<Weighted> = StrMap::new();
    let mut i: usize = 0;
    proof {
        assert(rl.take(0) =~= Seq::<RuleV>::empty());
    }
    while i < stylesheet.rules.len()
        invariant
            0 <= i <= stylesheet.rules@.len(),
            rl == stylesheet@.rules,
            rl.len() == stylesheet.rules@.len(),
            forall|name: Seq<char>|
                {
                    let w = #[trigger] spec_winner(rl.take(i as int), elem@, name);
                    match w {
                        Option::None => !work@.contains_key(name),
                        Option::Some(p) => work@.contains_key(name) && work@[name]
                            == (WeightedV { spec3: p.0, value: p.1 }),
                    }
                },
        decreases stylesheet.rules@.len() - i,
    {
        let ghost prework = work@;
        let matched = match_rule(elem, &stylesheet.rules[i]);
        match matched {
            Some(sp) => {
                proof {
                    assert(rl[i as int] == stylesheet.rules@[i as int]@);
                }
                fold_rule(&mut work, &stylesheet.rules[i], sp, Ghost(elem@));
            },
            None => {},
        }
        proof {
            assert(rl.take(i + 1 as int).drop_last() =~= rl.take(i as int));
            assert(rl.take(i + 1 as int).last() == rl[i as int]);
            assert(rl[i as int] == stylesheet.rules@[i as int]@);
            assert forall|name: Seq<char>|
                {
                    let w = #[trigger] spec_winner(rl.take(i + 1 as int), elem@, name);
                    match w {
                        Option::None => !work@.contains_key(name),
                        Option::Some(p) => work@.contains_key(name) && work@[name]
                            == (WeightedV { spec3: p.0, value: p.1 }),
                    }
                } by {
                let prior = spec_winner(rl.take(i as int), elem@, name);
                assert(match prior {
                    Option::None => !prework.contains_key(name),
                    Option::Some(p) => prework.contains_key(name) && prework[name]
                        == (WeightedV { spec3: p.0, value: p.1 }),
                });
                match matched {
                    Some(sp) => {
                        assert(spec_match_rule(elem@, rl[i as int]) == Some(
                            (sp.0 as int, sp.1 as int, sp.2 as int),
                        ));
                    },
                    None => {
                        assert(!contributes(elem@, rl[i as int], name));
                    },
                }
            }
        }
        i = i + 1;
    }
    proof {
        assert(rl.take(rl.len() as int) =~= rl);
    }
    // Keep the values only.
    let mut out: PropertyMap = StrMap::new();
    let mut k: usize = 0;
    let ghost went = work.entries@;
    proof {
        assert(went.take(0) =~= Seq::<(String, Weighted)>::empty());
    }
    while k < work.entries.len()
        invariant
            0 <= k <= work.entries@.len(),
            went == work.entries@,
            forall|n: Seq<char>| #[trigger]
                map_of(went.take(k as int)).contains_key(n) == out@.contains_key(n),
            forall|n: Seq<char>| #[trigger]
                map_of(went.take(k as int)).contains_key(n) ==> out@[n] == map_of(
                    went.take(k as int),
                )[n].value,
        decreases work.entries@.len() - k,
    {
        let nm = work.entries[k].0.clone();
        let vv = work.entries[k].1.value.duplicate();
        out.insert(nm, vv);
        proof {
            assert(went.take(k + 1 as int).drop_last() =~= went.take(k as int));
            assert(went.take(k + 1 as int).last() == went[k as int]);
            assert(map_of(went.take(k + 1 as int)) == map_of(went.take(k as int)).insert(
                (went[k as int].0)@,
                (went[k as int].1)@,
            ));
        }
        k = k + 1;
    }
    proof {
        assert(went.take(went.len() as int) =~= went);
        assert(out@ =~= spec_specified_values(stylesheet@.rules, elem@));
    }
    out
}

/// The styled tree of a markup node: an element gets its computed
/// properties, a text node an empty mapping; the shape of the markup tree
/// is kept.
pub open spec fn spec_style_tree(n: NodeV, rules: Seq<RuleV>) -> StyleNodeV
    decreases n, 0int,
{
    match n {
        NodeV::Element(e) => StyleNodeV {
            text: None,
            props: spec_specified_values(rules, e),
            children: spec_style_children(e.children, rules, 0),
        },
        NodeV::Text(t) => StyleNodeV {
            text: Some(t),
            props: Map::empty(),
            children: Seq::empty(),
        },
    }
}

pub open spec fn spec_style_children(cs: Seq<NodeV>, rules: Seq<RuleV>, i: int) -> Seq<
    StyleNodeV,
>
    decreases cs, cs.len() - i,
{
    if 0 <= i < cs.len() {
        seq![spec_style_tree(cs[i], rules)] + spec_style_children(cs, rules, i + 1)
    } else {
        Seq::empty()
    }
}

pub proof fn lemma_spec_style_children(cs: Seq<NodeV>, rules: Seq<RuleV>, i: int)
    requires
        0 <= i <= cs.len(),
    ensures
        spec_style_children(cs, rules, i).len() == cs.len() - i,
        forall|k: int|
            0 <= k < cs.len() - i ==> spec_style_children(cs, rules, i)[k] == spec_style_tree(
                cs[i + k],
                rules,
            ),
    decreases cs.len() - i,
{
    if i < cs.len() {
        lemma_spec_style_children(cs, rules, i + 1);
    }
}

/// Build the styled tree for `root` against the stylesheet.
pub fn style_tree(root: &Node, stylesheet: &Stylesheet) -> (r: StyleNode)
    ensures
        r@ == spec_style_tree(root@, stylesheet@.rules),
    decreases *root, 0int,
{
    match root {
        Node::Element(e) => {
            let props = specified_values(e, stylesheet);
            let children = style_children(&e.children, stylesheet, 0);
            let r = StyleNode { text: None, style_values: props, children };
            proof {
                lemma_stylenodes_view(r.children, 0);
            }
            r
        },
        Node::Text(t) => {
            let r = StyleNode { text: Some(t.clone()), style_values: StrMap::new(), children: Vec::new() };
            proof {
                lemma_stylenodes_view(r.children, 0);
                assert(stylenodes_view(r.children, 0) =~= Seq::<StyleNodeV>::empty());
            }
            r
        },
    }
}

/// Build the styled subtrees of the children from index `i` on.
fn style_children(cs: &Vec<Node>, stylesheet: &Stylesheet, i: usize) -> (r: Vec<StyleNode>)
    requires
        i <= cs.len(),
    ensures
        stylenodes_view(r, 0) == spec_style_children(
            crate::datatypes::nodes_view(*cs, 0),
            stylesheet@.rules,
            i as int,
        ),
    decreases *cs, cs@.len() - i,
{
    let ghost nv = crate::datatypes::nodes_view(*cs, 0);
    proof {
        crate::datatypes::lemma_nodes_view(*cs, 0);
        lemma_spec_style_children(nv, stylesheet@.rules, i as int);
    }
    if i >= cs.len() {
        let r: Vec<StyleNode> = Vec::new();
        proof {
            lemma_stylenodes_view(r, 0);
            assert(stylenodes_view(r, 0) =~= spec_style_children(nv, stylesheet@.rules, i as int));
        }
        r
    } else {
        let first = style_tree(&cs[i], stylesheet);
        let mut rest = style_children(cs, stylesheet, i + 1);
        let ghost restpre = rest;
        rest.insert(0, first);
        proof {
            lemma_stylenodes_view(rest, 0);
            lemma_stylenodes_view(restpre, 0);
            lemma_spec_style_children(nv, stylesheet@.rules, i + 1 as int);
            assert(stylenodes_view(rest, 0) =~= spec_style_children(
                nv,
                stylesheet@.rules,
                i as int,
            ));
        }
        rest
    }
}

/// What a property mapping says property `name` is.
pub open spec fn spec_value_of(props: Map<Seq<char>, ValueV>, name: Seq<char>) -> Option<ValueV> {
    if props.contains_key(name) {
        Some(props[name])
    } else {
        None
    }
}

/// A property with a shorthand fallback and a default.
pub open spec fn spec_lookup(
    props: Map<Seq<char>, ValueV>,
    name: Seq<char>,
    fallback: Seq<char>,
    default: ValueV,
) -> ValueV {
    if props.contains_key(name) {
        props[name]
    } else if props.contains_key(fallback) {
        props[fallback]
    } else {
        default
    }
}

/// The display kind a property mapping computes to.
pub open spec fn spec_display(props: Map<Seq<char>, ValueV>) -> Display {
    if props.contains_key("display"@) {
        match props["display"@] {
            ValueV::Keyword(k) => if k == "block"@ {
                Display::Block
            } else if k == "none"@ {
                Display::Hidden
            } else {
                Display::Inline
            },
            _ => Display::Inline,
        }
    } else {
        Display::Inline
    }
}

impl StyleNode {
    /// The computed value of a property, if any.
    pub fn value(&self, name: &str) -> (r: Option<Value>)
        ensures
            match r {
                Some(v) => spec_value_of(self@.props, name@) == Some(v@),
                None => spec_value_of(self@.props, name@) is None,
            },
    {
        match self.style_values.get(name) {
            Some(v) => Some(v.duplicate()),
            None => None,
        }
    }

    /// The computed value of `name`, falling back to the shorthand
    /// `fallback`, then to `default`.
    pub fn lookup(&self, name: &str, fallback: &str, default: &Value) -> (r: Value)
        ensures
            r@ == spec_lookup(self@.props, name@, fallback@, default@),
    {
        match self.style_values.get(name) {
            Some(v) => v.duplicate(),
            None => match self.style_values.get(fallback) {
                Some(v) => v.duplicate(),
                None => default.duplicate(),
            },
        }
    }

    /// The node's display kind; the default is inline.
    pub fn display(&self) -> (r: Display)
        ensures
            r == spec_display(self@.props),
    {
        match self.value("display") {
            Some(v) => match v {
                Value::Keyword(k) => {
                    if string_is(&k, "block") {
                        Display::Block
                    } else if string_is(&k, "none") {
                        Display::Hidden
                    } else {
                        Display::Inline
                    }
                },
                _ => Display::Inline,
            },
            None => Display::Inline,
        }
    }
}

} // verus!
