//! Style resolution: matching selectors against elements, resolving the
//! cascade by specificity (stable on ties), and building the styled tree.

use vstd::prelude::*;

use crate::css_parser::{
    spec_le, spec_lt, spec_specificity, Declaration, Rule, Selector, SimpleSelector, Specificity,
    StyleSheet, Value,
};
use crate::dom::{spec_classes, ElementData, Node, NodeType};
use crate::strmap::StrMap;
use crate::text::str_eq;

verus! {

/// The resolved properties of one styled node.
pub type PropertyMap = StrMap<Value>;

/// Whether a simple selector matches an element: the tag name, if present,
/// equals the element's tag; the id, if present, equals the element's `id`
/// attribute; and when class names are listed, at least one is among the
/// element's class tokens.
pub open spec fn simple_matches(e: ElementData, s: SimpleSelector) -> bool {
    &&& match s.tag_name {
        Some(t) => e.tag_name@ == t@,
        None => true,
    }
    &&& match s.id {
        Some(id) => e.attributes@.contains_key("id"@) && e.attributes@["id"@]@ == id@,
        None => true,
    }
    &&& (s.class@.len() > 0 ==> exists|k: int|
        0 <= k < s.class@.len() && spec_classes(e).contains(#[trigger] s.class@[k]@))
}

/// Whether a selector matches an element.
pub open spec fn sel_matches(e: ElementData, s: Selector) -> bool {
    match s {
        Selector::Simple(simple) => simple_matches(e, simple),
    }
}

/// Check if a simple selector matches an element.
#[verifier::loop_isolation(false)]
pub fn matches_simple_selector(elem: &ElementData, selector: &SimpleSelector) -> (r: bool)
    requires
        elem.attributes.wf(),
    ensures
        r == simple_matches(*elem, *selector),
{
    // Check type selector.
    let tag_ok: bool = match &selector.tag_name {
        Some(name) => str_eq(elem.tag_name.as_str(), name.as_str()),
        None => true,
    };
    if !tag_ok {
        return false;
    }
    // Check id selector.
    let id_ok: bool = match &selector.id {
        Some(id) => {
            match elem.id() {
                None => false,
                Some(v) => str_eq(v.as_str(), id.as_str()),
            }
        },
        None => true,
    };
    if !id_ok {
        return false;
    }
    // Check class selector: at least one listed class must be present.
    let nclasses = selector.class.len();
    if nclasses > 0 {
        let tokens = elem.classes();
        let ghost toks = tokens@.map_values(|t: String| t@);
        let ntokens = tokens.len();
        let mut k: usize = 0;
        while k < nclasses
            invariant
                nclasses == selector.class@.len(),
                ntokens == tokens@.len(),
                toks == tokens@.map_values(|t: String| t@),
                toks == spec_classes(*elem),
                k <= nclasses,
                forall|k2: int, j: int|
                    0 <= k2 < k && 0 <= j < toks.len() ==> #[trigger] toks[j]
                        != #[trigger] selector.class@[k2]@,
            decreases nclasses - k,
        {
            let mut j: usize = 0;
            while j < ntokens
                invariant
                    nclasses == selector.class@.len(),
                    ntokens == tokens@.len(),
                    toks == tokens@.map_values(|t: String| t@),
                    toks == spec_classes(*elem),
                    k < nclasses,
                    j <= ntokens,
                    forall|j2: int| 0 <= j2 < j ==> toks[j2] != selector.class@[k as int]@,
                decreases ntokens - j,
            {
                if str_eq(tokens[j].as_str(), selector.class[k].as_str()) {
                    proof {
                        assert(toks[j as int] == selector.class@[k as int]@);
                        assert(spec_classes(*elem).contains(selector.class@[k as int]@));
                    }
                    return true;
                }
                j = j + 1;
            }
            k = k + 1;
        }
        proof {
            assert forall|k2: int| 0 <= k2 < selector.class@.len() implies !spec_classes(
                *elem,
            ).contains(#[trigger] selector.class@[k2]@) by {
                if spec_classes(*elem).contains(selector.class@[k2]@) {
                    let j = choose|j: int|
                        0 <= j < toks.len() && toks[j] == selector.class@[k2]@;
                }
            }
        }
        return false;
    }
    true
}

/// Check if a selector matches an element.
pub fn matches(elem: &ElementData, selector: &Selector) -> (r: bool)
    requires
        elem.attributes.wf(),
    ensures
        r == sel_matches(*elem, *selector),
{
    match selector {
        Selector::Simple(simple) => matches_simple_selector(elem, simple),
    }
}

/// Whether any selector of a rule matches the element.
pub open spec fn rule_matches(e: ElementData, r: Rule) -> bool {
    exists|k: int| 0 <= k < r.selectors@.len() && sel_matches(e, #[trigger] r.selectors@[k])
}

/// The highest specificity among the selectors of `sels` that match `e`;
/// `(-1, -1, -1)` when none matches.
pub open spec fn best_specificity(e: ElementData, sels: Seq<Selector>) -> (int, int, int)
    decreases sels.len(),
{
    if sels.len() == 0 {
        (-1int, -1int, -1int)
    } else {
        let b = best_specificity(e, sels.drop_last());
        if sel_matches(e, sels.last()) && spec_lt(b, spec_specificity(sels.last())) {
            spec_specificity(sels.last())
        } else {
            b
        }
    }
}

/// Match a rule against an element: the best specificity among its
/// matching selectors, or `None` when no selector matches.
pub fn match_rule(elem: &ElementData, rule: &Rule) -> (r: Option<Specificity>)
    requires
        elem.attributes.wf(),
    ensures
        match r {
            Some(s) => rule_matches(*elem, *rule) && (s.0 as int, s.1 as int, s.2 as int)
                == best_specificity(*elem, rule.selectors@),
            None => !rule_matches(*elem, *rule),
        },
{
    let n = rule.selectors.len();
    let mut matched = false;
    let mut best: Specificity = (0, 0, 0);
    let mut k: usize = 0;
    while k < n
        invariant
            elem.attributes.wf(),
            n == rule.selectors@.len(),
            k <= n,
            matched <==> exists|i: int|
                0 <= i < k && sel_matches(*elem, #[trigger] rule.selectors@[i]),
            matched ==> (best.0 as int, best.1 as int, best.2 as int) == best_specificity(
                *elem,
                rule.selectors@.subrange(0, k as int),
            ),
            !matched ==> best_specificity(*elem, rule.selectors@.subrange(0, k as int)) == (
            -1int,
            -1int,
            -1int,
            ),
        decreases n - k,
    {
        let ghost prefix = rule.selectors@.subrange(0, k as int);
        proof {
            assert(rule.selectors@.subrange(0, k + 1).drop_last() =~= prefix);
            assert(rule.selectors@.subrange(0, k + 1).last() == rule.selectors@[k as int]);
        }
        let sel = &rule.selectors[k];
        if matches(elem, sel) {
            let s = sel.specificity();
            if !matched {
                matched = true;
                best = s;
            } else {
                if crate::css_parser::specificity_lt(&best, &s) {
                    best = s;
                }
            }
        }
        k = k + 1;
    }
    proof {
        assert(rule.selectors@.subrange(0, n as int) =~= rule.selectors@);
    }
    if matched {
        Some(best)
    } else {
        None
    }
}

/// Specificity as a mathematical triple.
pub open spec fn sp_int(s: Specificity) -> (int, int, int) {
    (s.0 as int, s.1 as int, s.2 as int)
}

/// Apply one declaration carrying specificity key `s` to the cascade state:
/// it wins unless the present binding has a strictly higher key.
pub open spec fn apply_one(
    m: Map<Seq<char>, ((int, int, int), Value)>,
    s: (int, int, int),
    d: Declaration,
) -> Map<Seq<char>, ((int, int, int), Value)> {
    if !m.contains_key(d.name@) || spec_le(m[d.name@].0, s) {
        m.insert(d.name@, (s, d.value))
    } else {
        m
    }
}

/// Apply a rule's declarations in order.
pub open spec fn apply_decls(
    m: Map<Seq<char>, ((int, int, int), Value)>,
    s: (int, int, int),
    decls: Seq<Declaration>,
) -> Map<Seq<char>, ((int, int, int), Value)>
    decreases decls.len(),
{
    if decls.len() == 0 {
        m
    } else {
        apply_one(apply_decls(m, s, decls.drop_last()), s, decls.last())
    }
}

/// The cascade over a rule list, processed in stylesheet order. Each
/// matching rule applies its declarations under its best matching
/// specificity; a later rule overrides an earlier binding exactly when its
/// key is not lower, so higher specificity wins and, on equal specificity,
/// the rule later in the stylesheet wins.
pub open spec fn cascade(rules: Seq<Rule>, e: ElementData) -> Map<
    Seq<char>,
    ((int, int, int), Value),
>
    decreases rules.len(),
{
    if rules.len() == 0 {
        Map::empty()
    } else {
        let m = cascade(rules.drop_last(), e);
        let r = rules.last();
        if rule_matches(e, r) {
            apply_decls(m, best_specificity(e, r.selectors@), r.declarations@)
        } else {
            m
        }
    }
}

/// The resolved property map of an element under a stylesheet.
pub open spec fn specified(e: ElementData, sheet: StyleSheet) -> Map<Seq<char>, Value> {
    cascade(sheet.rules@, e).map_values(|p: ((int, int, int), Value)| p.1)
}

/// Apply all matching rules of a stylesheet to a single element.
#[verifier::loop_isolation(false)]
pub fn specified_values(elem: &ElementData, stylesheet: &StyleSheet) -> (r: PropertyMap)
    requires
        elem.attributes.wf(),
    ensures
        r.wf(),
        r@ == specified(*elem, *stylesheet),
{
    let ghost fkey = |p: (Specificity, Value)| (sp_int(p.0), p.1);
    let ghost fval = |p: ((int, int, int), Value)| p.1;
    let mut keyed: StrMap<(Specificity, Value)> = StrMap::new();
    let mut values: PropertyMap = StrMap::new();
    let nrules = stylesheet.rules.len();
    let mut i: usize = 0;
    proof {
        assert(keyed@.map_values(fkey) =~= cascade(stylesheet.rules@.subrange(0, 0), *elem));
        assert(values@ =~= keyed@.map_values(fkey).map_values(fval));
    }
    while i < nrules
        invariant
            keyed.wf(),
            values.wf(),
            i <= nrules,
            keyed@.map_values(fkey) == cascade(stylesheet.rules@.subrange(0, i as int), *elem),
            values@ == keyed@.map_values(fkey).map_values(fval),
        decreases nrules - i,
    {
        let ghost prefix = stylesheet.rules@.subrange(0, i as int);
        proof {
            assert(stylesheet.rules@.subrange(0, i + 1).drop_last() =~= prefix);
            assert(stylesheet.rules@.subrange(0, i + 1).last() == stylesheet.rules@[i as int]);
        }
        let rule = &stylesheet.rules[i];
        match match_rule(elem, rule) {
            None => {},
            Some(best) => {
                let ghost m0 = keyed@.map_values(fkey);
                let ghost s = best_specificity(*elem, rule.selectors@);
                let ndecls = rule.declarations.len();
                let mut j: usize = 0;
                proof {
                    assert(apply_decls(m0, s, rule.declarations@.subrange(0, 0)) =~= m0);
                }
                while j < ndecls
                    invariant
                        keyed.wf(),
                        values.wf(),
                        j <= ndecls,
                        keyed@.map_values(fkey) == apply_decls(
                            m0,
                            s,
                            rule.declarations@.subrange(0, j as int),
                        ),
                        values@ == keyed@.map_values(fkey).map_values(fval),
                    decreases ndecls - j,
                {
                    proof {
                        assert(rule.declarations@.subrange(0, j + 1).drop_last()
                            =~= rule.declarations@.subrange(0, j as int));
                        assert(rule.declarations@.subrange(0, j + 1).last()
                            == rule.declarations@[j as int]);
                    }
                    let decl = &rule.declarations[j];
                    let ghost mj = keyed@.map_values(fkey);
                    let replace: bool = match keyed.get(decl.name.as_str()) {
                        None => true,
                        Some(p) => !crate::css_parser::specificity_lt(&best, &p.0),
                    };
                    if replace {
                        keyed.insert(decl.name.clone(), (best, decl.value.clone()));
                        values.insert(decl.name.clone(), decl.value.clone());
                        proof {
                            assert(keyed@.map_values(fkey) =~= mj.insert(
                                decl.name@,
                                (s, decl.value),
                            ));
                            assert(keyed@.map_values(fkey) =~= apply_one(mj, s, *decl));
                            assert(values@ =~= keyed@.map_values(fkey).map_values(fval));
                        }
                    } else {
                        proof {
                            assert(mj.contains_key(decl.name@) && spec_lt(s, mj[decl.name@].0));
                            assert(keyed@.map_values(fkey) =~= apply_one(mj, s, *decl));
                        }
                    }
                    j = j + 1;
                }
                proof {
                    assert(rule.declarations@.subrange(0, ndecls as int) =~= rule.declarations@);
                }
            },
        }
        i = i + 1;
    }
    proof {
        assert(stylesheet.rules@.subrange(0, nrules as int) =~= stylesheet.rules@);
        assert(values@ =~= specified(*elem, *stylesheet));
    }
    values
}

/// Whether a declaration list declares the property `p`.
pub open spec fn declares(decls: Seq<Declaration>, p: Seq<char>) -> bool {
    exists|j: int| 0 <= j < decls.len() && #[trigger] decls[j].name@ == p
}

/// The value of the last declaration of `p` in a declaration list.
pub open spec fn last_declared(decls: Seq<Declaration>, p: Seq<char>) -> Value
    decreases decls.len(),
{
    if decls.len() == 0 {
        arbitrary()
    } else if decls.last().name@ == p {
        decls.last().value
    } else {
        last_declared(decls.drop_last(), p)
    }
}

pub proof fn lemma_apply_decls_not_declared(
    m: Map<Seq<char>, ((int, int, int), Value)>,
    s: (int, int, int),
    decls: Seq<Declaration>,
    p: Seq<char>,
)
    requires
        !declares(decls, p),
    ensures
        apply_decls(m, s, decls).contains_key(p) == m.contains_key(p),
        m.contains_key(p) ==> apply_decls(m, s, decls)[p] == m[p],
    decreases decls.len(),
{
    if decls.len() > 0 {
        assert(decls[decls.len() - 1].name@ != p);
        assert(!declares(decls.drop_last(), p)) by {
            if declares(decls.drop_last(), p) {
                let j = choose|j: int|
                    0 <= j < decls.drop_last().len() && #[trigger] decls.drop_last()[j].name@ == p;
                assert(decls[j].name@ == p);
            }
        }
        lemma_apply_decls_not_declared(m, s, decls.drop_last(), p);
    }
}

pub proof fn lemma_apply_decls_declared(
    m: Map<Seq<char>, ((int, int, int), Value)>,
    s: (int, int, int),
    decls: Seq<Declaration>,
    p: Seq<char>,
)
    requires
        declares(decls, p),
        !m.contains_key(p) || spec_le(m[p].0, s),
    ensures
        apply_decls(m, s, decls).contains_key(p),
        apply_decls(m, s, decls)[p] == (s, last_declared(decls, p)),
    decreases decls.len(),
{
    if decls.last().name@ == p {
        if declares(decls.drop_last(), p) {
            lemma_apply_decls_declared(m, s, decls.drop_last(), p);
        } else {
            lemma_apply_decls_not_declared(m, s, decls.drop_last(), p);
        }
    } else {
        assert(declares(decls.drop_last(), p)) by {
            let j = choose|j: int| 0 <= j < decls.len() && #[trigger] decls[j].name@ == p;
            assert(decls.drop_last()[j].name@ == p);
        }
        lemma_apply_decls_declared(m, s, decls.drop_last(), p);
    }
}

/// Cascade determinism: when two rules of equal specificity both match an
/// element and both declare the same property, the rule appearing later
/// in the stylesheet wins, with its own last declaration of the property.
pub proof fn lemma_cascade_later_wins(r1: Rule, r2: Rule, e: ElementData, p: Seq<char>)
    requires
        rule_matches(e, r1),
        rule_matches(e, r2),
        best_specificity(e, r1.selectors@) == best_specificity(e, r2.selectors@),
        declares(r1.declarations@, p),
        declares(r2.declarations@, p),
    ensures
        cascade(seq![r1, r2], e).contains_key(p),
        cascade(seq![r1, r2], e)[p].1 == last_declared(r2.declarations@, p),
{
    let rules = seq![r1, r2];
    let s = best_specificity(e, r1.selectors@);
    assert(rules.drop_last() =~= seq![r1]);
    assert(rules.last() == r2);
    assert(seq![r1].drop_last() =~= Seq::<Rule>::empty());
    assert(seq![r1].last() == r1);
    let m0 = Map::<Seq<char>, ((int, int, int), Value)>::empty();
    let m1 = apply_decls(m0, s, r1.declarations@);
    assert(cascade(Seq::<Rule>::empty(), e) == m0);
    assert(cascade(seq![r1], e) == m1);
    assert(cascade(rules, e) == apply_decls(m1, s, r2.declarations@));
    lemma_apply_decls_declared(m0, s, r1.declarations@, p);
    lemma_apply_decls_declared(m1, s, r2.declarations@, p);
}

/// Every value bound in a cascade state is a pixel length in `[0, b]` or
/// a non-length value.
pub open spec fn cascade_values_bounded(
    m: Map<Seq<char>, ((int, int, int), Value)>,
    b: int,
) -> bool {
    forall|k: Seq<char>| #[trigger] m.contains_key(k) ==> 0 <= m[k].1.spec_to_px() <= b
}

pub proof fn lemma_apply_decls_bounded(
    m: Map<Seq<char>, ((int, int, int), Value)>,
    s: (int, int, int),
    decls: Seq<Declaration>,
    b: int,
)
    requires
        cascade_values_bounded(m, b),
        forall|j: int| 0 <= j < decls.len() ==> 0 <= (#[trigger] decls[j]).value.spec_to_px() <= b,
    ensures
        cascade_values_bounded(apply_decls(m, s, decls), b),
    decreases decls.len(),
{
    if decls.len() > 0 {
        lemma_apply_decls_bounded(m, s, decls.drop_last(), b);
        assert(0 <= decls[decls.len() - 1].value.spec_to_px() <= b);
    }
}

/// The cascade only ever binds values that some matching rule declared:
/// with every declared length of the stylesheet within `[0, MAX_PX]`,
/// every resolved property is too.
pub proof fn lemma_specified_bounded(e: ElementData, sheet: StyleSheet)
    requires
        crate::css_parser::sheet_lengths_bounded(sheet),
    ensures
        forall|k: Seq<char>| #[trigger] specified(e, sheet).contains_key(k) ==> 0 <= specified(
            e,
            sheet,
        )[k].spec_to_px() <= crate::css_parser::MAX_PX as int,
{
    lemma_cascade_bounded(sheet.rules@, e, crate::css_parser::MAX_PX as int);
}

pub proof fn lemma_cascade_bounded(rules: Seq<Rule>, e: ElementData, b: int)
    requires
        forall|i: int, j: int|
            0 <= i < rules.len() && 0 <= j < (#[trigger] rules[i]).declarations@.len() ==> 0 <= (
            #[trigger] rules[i].declarations@[j]).value.spec_to_px() <= b,
    ensures
        cascade_values_bounded(cascade(rules, e), b),
    decreases rules.len(),
{
    if rules.len() > 0 {
        assert(forall|i: int, j: int|
            0 <= i < rules.drop_last().len() && 0 <= j < (
            #[trigger] rules.drop_last()[i]).declarations@.len() ==> 0 <= (
            #[trigger] rules.drop_last()[i].declarations@[j]).value.spec_to_px() <= b) by {
            assert(forall|i: int|
                0 <= i < rules.drop_last().len() ==> #[trigger] rules.drop_last()[i] == rules[i]);
        }
        lemma_cascade_bounded(rules.drop_last(), e, b);
        let r = rules.last();
        if rule_matches(e, r) {
            assert(forall|j: int|
                0 <= j < r.declarations@.len() ==> 0 <= (
                #[trigger] r.declarations@[j]).value.spec_to_px() <= b) by {
                assert(r == rules[rules.len() - 1]);
            }
            lemma_apply_decls_bounded(
                cascade(rules.drop_last(), e),
                best_specificity(e, r.selectors@),
                r.declarations@,
                b,
            );
        }
    }
}

/// How a styled node participates in layout; `Hidden` is the
/// `display: none` mode, which removes the node from layout.
#[derive(Debug, Clone, Copy, PartialEq, Eq, Structural)]
pub enum Display {
    Inline,
    Block,
    Hidden,
}

/// The display mode a property map resolves to: the `display` property's
/// keyword when it is `block` or `none`, and inline in every other case.
pub open spec fn display_of(values: Map<Seq<char>, Value>) -> Display {
    if values.contains_key("display"@) {
        match values["display"@] {
            Value::Keyword(kw) => if kw@ == "block"@ {
                Display::Block
            } else if kw@ == "none"@ {
                Display::Hidden
            } else {
                Display::Inline
            },
            _ => Display::Inline,
        }
    } else {
        Display::Inline
    }
}

/// What `lookup` returns: the named property, else the fallback property,
/// else the given default.
pub open spec fn lookup_spec(
    values: Map<Seq<char>, Value>,
    name: Seq<char>,
    fallback: Seq<char>,
    default: Value,
) -> Value {
    if values.contains_key(name) {
        values[name]
    } else if values.contains_key(fallback) {
        values[fallback]
    } else {
        default
    }
}

/// A node of the styled tree: the resolved property map of one document
/// node, with one styled child per document child.
#[derive(Debug)]
pub struct StyledNode {
    pub specified_values: PropertyMap,
    pub children: Vec<StyledNode>,
}

/// Ghost mirror of a styled tree.
#[verifier::ext_equal]
pub struct GStyled {
    pub values: Map<Seq<char>, Value>,
    pub children: Seq<GStyled>,
}

/// The abstract value of a styled tree.
pub open spec fn styled_view(s: StyledNode) -> GStyled
    decreases s,
{
    GStyled {
        values: s.specified_values@,
        children: Seq::new(
            s.children@.len(),
            |i: int|
                if 0 <= i < s.children@.len() {
                    styled_view(s.children@[i])
                } else {
                    arbitrary()
                },
        ),
    }
}

/// Every property map in a styled tree is well-formed.
pub open spec fn styled_wf(s: StyledNode) -> bool
    decreases s,
{
    &&& s.specified_values.wf()
    &&& forall|i: int| 0 <= i < s.children@.len() ==> styled_wf(#[trigger] s.children@[i])
}

/// The styled tree an element tree resolves to under a stylesheet: element
/// nodes carry their cascade result, text nodes an empty map.
pub open spec fn style_tree_spec(n: Node, sheet: StyleSheet) -> GStyled
    decreases n,
{
    GStyled {
        values: match n.node_type {
            NodeType::Element(e) => specified(e, sheet),
            NodeType::Text(_) => Map::empty(),
        },
        children: Seq::new(
            n.children@.len(),
            |i: int|
                if 0 <= i < n.children@.len() {
                    style_tree_spec(n.children@[i], sheet)
                } else {
                    arbitrary()
                },
        ),
    }
}

impl StyledNode {
    /// Return the value of the given property, if resolved.
    pub fn value(&self, property_name: &str) -> (r: Option<Value>)
        requires
            self.specified_values.wf(),
        ensures
            match r {
                Some(v) => self.specified_values@.contains_key(property_name@) && v
                    == self.specified_values@[property_name@],
                None => !self.specified_values@.contains_key(property_name@),
            },
    {
        match self.specified_values.get(property_name) {
            Some(v) => Some(v.clone()),
            None => None,
        }
    }

    /// Return the named property, else the fallback property, else the
    /// supplied default.
    pub fn lookup(&self, property_name: &str, fallback_name: &str, default: &Value) -> (r: Value)
        requires
            self.specified_values.wf(),
        ensures
            r == lookup_spec(self.specified_values@, property_name@, fallback_name@, *default),
    {
        match self.value(property_name) {
            Some(v) => v,
            None => match self.value(fallback_name) {
                Some(v) => v,
                None => default.clone(),
            },
        }
    }

    /// The display mode of this node.
    pub fn display(&self) -> (r: Display)
        requires
            self.specified_values.wf(),
        ensures
            r == display_of(self.specified_values@),
    {
        match self.specified_values.get("display") {
            Some(v) => match v {
                Value::Keyword(kw) => {
                    if str_eq(kw.as_str(), "block") {
                        Display::Block
                    } else if str_eq(kw.as_str(), "none") {
                        Display::Hidden
                    } else {
                        Display::Inline
                    }
                },
                _ => Display::Inline,
            },
            None => Display::Inline,
        }
    }
}

/// Every property map in a styled tree binds only pixel lengths within
/// `[0, MAX_PX]`.
pub open spec fn gstyled_bounded(s: GStyled) -> bool
    decreases s,
{
    &&& forall|k: Seq<char>| #[trigger] s.values.contains_key(k) ==> 0 <= s.values[k].spec_to_px()
        <= crate::css_parser::MAX_PX as int
    &&& forall|i: int|
        0 <= i < s.children.len() ==> gstyled_bounded(#[trigger] s.children[i])
}

/// A stylesheet whose declared lengths are bounded styles every tree with
/// bounded property maps throughout.
pub proof fn lemma_style_tree_bounded(n: Node, sheet: StyleSheet)
    requires
        crate::css_parser::sheet_lengths_bounded(sheet),
    ensures
        gstyled_bounded(style_tree_spec(n, sheet)),
    decreases n,
{
    let s = style_tree_spec(n, sheet);
    match n.node_type {
        NodeType::Element(e) => {
            lemma_specified_bounded(e, sheet);
        },
        NodeType::Text(_) => {},
    }
    assert forall|i: int| 0 <= i < s.children.len() implies gstyled_bounded(
        #[trigger] s.children[i],
    ) by {
        lemma_style_tree_bounded(n.children@[i], sheet);
    }
}

/// Apply a stylesheet to an entire document tree, producing one styled
/// node per document node.
#[verifier::loop_isolation(false)]
pub fn style_tree(root: &Node, stylesheet: &StyleSheet) -> (r: StyledNode)
    requires
        crate::dom::node_wf(*root),
    ensures
        styled_wf(r),
        styled_view(r) == style_tree_spec(*root, *stylesheet),
    decreases *root,
{
    let specified_values = match &root.node_type {
        NodeType::Element(elem) => specified_values(elem, stylesheet),
        NodeType::Text(_) => StrMap::new(),
    };
    let n = root.children.len();
    let mut children: Vec<StyledNode> = Vec::new();
    let mut i: usize = 0;
    while i < n
        invariant
            children@.len() == i,
            i <= n,
            forall|j: int| 0 <= j < i ==> styled_wf(#[trigger] children@[j]),
            forall|j: int|
                0 <= j < i ==> styled_view(#[trigger] children@[j]) == style_tree_spec(
                    root.children@[j],
                    *stylesheet,
                ),
        decreases n - i,
    {
        let child = style_tree(&root.children[i], stylesheet);
        children.push(child);
        i = i + 1;
    }
    let r = StyledNode { specified_values, children };
    proof {
        assert(styled_view(r).children =~= style_tree_spec(*root, *stylesheet).children);
        assert(styled_view(r) =~= style_tree_spec(*root, *stylesheet));
    }
    r
}

} // verus!
