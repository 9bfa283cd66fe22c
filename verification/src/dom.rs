//! The document tree: element and text nodes with tag names, attribute
//! maps (unique keys) and ordered children. Built once by the markup
//! parser and read-only during styling and layout.

use vstd::prelude::*;

use crate::strmap::StrMap;

verus! {

/// Attributes of an element: a string-keyed map with unique keys.
pub type AttributeMap = StrMap<String>;

/// A node of the document tree.
#[derive(Debug)]
pub struct Node {
    pub children: Vec<Node>,
    pub node_type: NodeType,
}

/// What a node is: a text run or an element.
#[derive(Debug)]
pub enum NodeType {
    Text(String),
    Element(ElementData),
}

/// Tag name and attributes of an element node.
#[derive(Debug)]
pub struct ElementData {
    pub tag_name: String,
    pub attributes: AttributeMap,
}

/// Every attribute map in the tree is well-formed.
pub open spec fn node_wf(n: Node) -> bool
    decreases n,
{
    &&& match n.node_type {
        NodeType::Element(e) => e.attributes.wf(),
        NodeType::Text(_) => true,
    }
    &&& forall|i: int| 0 <= i < n.children@.len() ==> node_wf(#[trigger] n.children@[i])
}

impl Node {
    /// Create a text node.
    pub fn new_by_text(text: String) -> (r: Self)
        ensures
            r.node_type == NodeType::Text(text),
            r.children@.len() == 0,
            node_wf(r),
    {
        Self { children: Vec::new(), node_type: NodeType::Text(text) }
    }

    /// Create an element node.
    pub fn new_by_element(tag_name: String, attributes: AttributeMap, children: Vec<Node>) -> (r:
        Self)
        requires
            attributes.wf(),
            forall|i: int| 0 <= i < children@.len() ==> node_wf(#[trigger] children@[i]),
        ensures
            r.node_type == NodeType::Element(ElementData { tag_name, attributes }),
            r.children == children,
            node_wf(r),
    {
        Self { children, node_type: NodeType::Element(ElementData { tag_name, attributes }) }
    }
}

/// The `class` attribute value split at single spaces, exactly as the
/// attribute text reads; consecutive spaces yield empty tokens.
pub open spec fn split_classes(s: Seq<char>) -> Seq<Seq<char>>
    decreases s.len(),
{
    if s.len() == 0 {
        seq![Seq::<char>::empty()]
    } else {
        let rest = split_classes(s.drop_first());
        if s[0] == ' ' {
            seq![Seq::<char>::empty()] + rest
        } else {
            seq![seq![s[0]] + rest[0]] + rest.drop_first()
        }
    }
}

pub proof fn lemma_split_classes_len(s: Seq<char>)
    ensures
        split_classes(s).len() >= 1,
    decreases s.len(),
{
    if s.len() > 0 {
        lemma_split_classes_len(s.drop_first());
    }
}

/// Extending the attribute text by one character extends the last token,
/// or starts a new empty one at a space.
pub proof fn lemma_split_classes_push(s: Seq<char>, c: char)
    ensures
        c == ' ' ==> split_classes(s.push(c)) == split_classes(s).push(Seq::<char>::empty()),
        c != ' ' ==> split_classes(s.push(c)) == split_classes(s).update(
            split_classes(s).len() - 1,
            split_classes(s).last().push(c),
        ),
    decreases s.len(),
{
    lemma_split_classes_len(s);
    if s.len() == 0 {
        assert(s =~= Seq::<char>::empty());
        assert(s.push(c)[0] == c);
        assert(s.push(c).drop_first() =~= s);
        if c == ' ' {
            assert(split_classes(s.push(c)) =~= split_classes(s).push(Seq::<char>::empty()));
        } else {
            assert(seq![s.push(c)[0]] + split_classes(s.push(c).drop_first())[0] =~= seq![c]);
            assert(split_classes(s.push(c)) =~= split_classes(s).update(
                split_classes(s).len() - 1,
                split_classes(s).last().push(c),
            ));
        }
    } else {
        let t = s.drop_first();
        let r = split_classes(t);
        assert(s.push(c).drop_first() =~= t.push(c));
        assert(s.push(c)[0] == s[0]);
        lemma_split_classes_push(t, c);
        lemma_split_classes_len(t);
        if c == ' ' {
            let rr = r.push(Seq::<char>::empty());
            assert(split_classes(t.push(c)) == rr);
            if s[0] == ' ' {
                assert(split_classes(s.push(c)) == seq![Seq::<char>::empty()] + rr);
                assert(split_classes(s) == seq![Seq::<char>::empty()] + r);
                assert(split_classes(s.push(c)) =~= split_classes(s).push(Seq::<char>::empty()));
            } else {
                assert(rr[0] == r[0]);
                assert(rr.drop_first() =~= r.drop_first().push(Seq::<char>::empty()));
                assert(split_classes(s.push(c)) == seq![seq![s[0]] + rr[0]] + rr.drop_first());
                assert(split_classes(s) == seq![seq![s[0]] + r[0]] + r.drop_first());
                assert(split_classes(s.push(c)) =~= split_classes(s).push(Seq::<char>::empty()));
            }
        } else {
            let rr = r.update(r.len() - 1, r.last().push(c));
            assert(split_classes(t.push(c)) == rr);
            if s[0] == ' ' {
                assert(split_classes(s.push(c)) == seq![Seq::<char>::empty()] + rr);
                assert(split_classes(s) == seq![Seq::<char>::empty()] + r);
                assert(split_classes(s.push(c)) =~= split_classes(s).update(
                    split_classes(s).len() - 1,
                    split_classes(s).last().push(c),
                ));
            } else {
                assert(split_classes(s.push(c)) == seq![seq![s[0]] + rr[0]] + rr.drop_first());
                assert(split_classes(s) == seq![seq![s[0]] + r[0]] + r.drop_first());
                if r.len() == 1 {
                    assert(rr[0] == r[0].push(c));
                    assert(rr.drop_first() =~= Seq::<Seq<char>>::empty());
                    assert(seq![s[0]] + r[0].push(c) =~= (seq![s[0]] + r[0]).push(c));
                    assert(split_classes(s).len() == 1);
                    assert(split_classes(s).last() == seq![s[0]] + r[0]);
                    assert(split_classes(s.push(c)) =~= split_classes(s).update(
                        split_classes(s).len() - 1,
                        split_classes(s).last().push(c),
                    ));
                } else {
                    assert(rr[0] == r[0]);
                    assert(rr.drop_first() =~= r.drop_first().update(
                        r.len() - 2,
                        r.last().push(c),
                    ));
                    assert(split_classes(s).last() == r.last());
                    assert(split_classes(s.push(c)) =~= split_classes(s).update(
                        split_classes(s).len() - 1,
                        split_classes(s).last().push(c),
                    ));
                }
            }
        }
    }
}

/// The class tokens of an element: its `class` attribute split at spaces,
/// or no tokens when the attribute is absent.
pub open spec fn spec_classes(e: ElementData) -> Seq<Seq<char>> {
    if e.attributes@.contains_key("class"@) {
        split_classes(e.attributes@["class"@]@)
    } else {
        Seq::empty()
    }
}

impl ElementData {
    /// The element's `id` attribute, when present.
    pub fn id(&self) -> (r: Option<&String>)
        requires
            self.attributes.wf(),
        ensures
            match r {
                Some(v) => self.attributes@.contains_key("id"@) && *v == self.attributes@["id"@],
                None => !self.attributes@.contains_key("id"@),
            },
    {
        self.attributes.get("id")
    }

    /// The element's class tokens, in attribute order.
    pub fn classes(&self) -> (r: Vec<String>)
        requires
            self.attributes.wf(),
        ensures
            r@.map_values(|t: String| t@) == spec_classes(*self),
    {
        let attr = self.attributes.get("class");
        match attr {
            None => {
                let r: Vec<String> = Vec::new();
                proof {
                    assert(r@.map_values(|t: String| t@) =~= spec_classes(*self));
                }
                r
            },
            Some(value) => {
                let s = value.as_str();
                let n = s.unicode_len();
                let mut result: Vec<String> = Vec::new();
                let mut cur = String::new();
                let mut i: usize = 0;
                proof {
                    assert(s@.subrange(0, 0) =~= Seq::<char>::empty());
                    assert(result@.map_values(|t: String| t@).push(cur@) =~= split_classes(
                        s@.subrange(0, 0),
                    ));
                }
                while i < n
                    invariant
                        n == s@.len(),
                        i <= n,
                        result@.map_values(|t: String| t@).push(cur@) == split_classes(
                            s@.subrange(0, i as int),
                        ),
                    decreases n - i,
                {
                    let c = s.get_char(i);
                    proof {
                        lemma_split_classes_push(s@.subrange(0, i as int), c);
                        assert(s@.subrange(0, i as int).push(c) =~= s@.subrange(0, i + 1));
                        lemma_split_classes_len(s@.subrange(0, i as int));
                    }
                    if c == ' ' {
                        let ghost old_result = result@;
                        let ghost old_cur = cur@;
                        result.push(cur);
                        cur = String::new();
                        proof {
                            assert(result@.map_values(|t: String| t@).push(cur@) =~= old_result
                                .map_values(|t: String| t@).push(old_cur).push(Seq::<char>::empty()));
                        }
                    } else {
                        let ghost old_result = result@;
                        let ghost old_cur = cur@;
                        crate::text::push_char(&mut cur, c);
                        proof {
                            let prev = old_result.map_values(|t: String| t@).push(old_cur);
                            assert(result@.map_values(|t: String| t@).push(cur@) =~= prev.update(
                                prev.len() - 1,
                                prev.last().push(c),
                            ));
                        }
                    }
                    i = i + 1;
                }
                result.push(cur);
                proof {
                    assert(s@.subrange(0, n as int) =~= s@);
                    assert(result@.map_values(|t: String| t@) =~= split_classes(s@));
                }
                result
            },
        }
    }
}

} // verus!
